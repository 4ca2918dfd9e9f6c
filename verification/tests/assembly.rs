//! Putting code together: lambdas, literals, tuples, appends and operators.

use loft::captures::{Capture, Owner};
use loft::closures::Lambdas;
use loft::comprehensions::{
    body_expected, body_expression, loop_end, try_const_fill_comprehension, try_const_unroll_comprehension, LoopEnd,
};
use loft::data::{Attribute, Data, DefType, Definition, Function, Variable};
use loft::elements::{
    append_source, get_type, holds_element, keyed_known_type, narrow_elm_kind, narrow_elm_read,
    narrow_elm_write, refuse_keyed_vector_element, refuse_mixed_element_encoding, vector_element_type,
    vector_of, AppendSource, Mixed, NarrowIntKind,
};
use loft::ir::{Block, Value};
use loft::lambdas::{
    add_closure_param, begin_lambda, declare_params, emit_lambda_code, enter_capture_scope, fn_ref_value, infer_params,
    lambda_name, lambda_return, lambda_type, mark_lambda_sandboxed, null_capture_backing,
    parse_fn_ref, parse_lambda, parse_lambda_short, published_params, reject_rebound_heap_parameter_captures, relay_nested_captures,
    relayed_capture_attr, relayed_capture_read, settle_params, short_signature, unresolved_params, Around,
    FnRefError, Sandboxed,
};
use loft::literals::{new_record, new_record_field_op, Item, LiteralSite};
use loft::operators::{boolean_operator, parse_append_text, parse_append_vector, Operand};
use loft::places::{
    comprehension_needs_own_buffer, comprehension_reads_target, field_place,
    source_names_a_collection, vector_link_partner_vars, Assignment, PlaceStep,
};
use loft::records::{
    fn_ref_slot_dnr, get_field, keyed_local_materialise, keyed_place_materialise, set_field,
};
use loft::schema::{Field, Parts, StoredType, Stores};
use loft::singles::{
    apply_prefix, find_literal_type, first_member_apart, form, known_receiver, literal_done, literal_place, literal_receiver, literal_value, minus_binds_tighter,
    negated_presence, note_receiver, parenthesised, parse_single, prefix_operation,
    redundant_negation, refuse_method_on_concat, single_step, string_target, tuple_member_hint,
    variants_of, ChainTarget, Form, Literal, Notice, Place, Prefixed, Read, Single, Step, Token,
    VariantsOf, Warning,
};
use loft::tuples::{build_tuple, tuple_member_copy_source, tuple_member_owned_copy};
use loft::types::{Deps, IntegerSpec, Type};
use loft::vector_literals::{
    add_records, assign_type, bracketed, comprehend, comprehension_counters, comprehension_element, comprehension_source,
    comprehension_strategy, empty_literal,
    fn_ref_source_captures, has_unresolved, item_outcome, item_slot, next_element_type, open_literal, parse_item,
    parse_multiply, parse_vector, parse_vector_for, reconcile,
    refuse_capturing_closure_in_collection, unique_elm_var, Bracket, Comprehension, Element, Fits,
    Folded, Outcome, Parsed, Part, Shape, Strategy,
};
use loft::vector_literals::Literal as Whole;
use loft::vector_store::{find_holder, vector_db_init, vector_needs_db, Holder};

const OPERATORS: [&str; 37] = [
    "OpDatabase", "OpGetField", "OpSetInt4", "OpRefIsNull", "OpGetInt", "OpSetInt", "OpAppendVector",
    "OpAppendText", "OpAppendStackText", "OpAppendCharacter", "OpAppendStackCharacter",
    "OpClearText", "OpClearStackText", "OpEqBool", "OpConvCharacterFromInt", "OpNewRecord",
    "OpFinishRecord", "OpAppendCopy", "OpGetVector", "OpVectorRef", "OpGetDbRef", "OpVectorIsNull",
    "OpSetByte", "OpGetByte", "OpSetByteNullable", "OpGetByteNullable", "OpSetShortRaw",
    "OpGetShortRaw", "OpFreeRefIfDistinct", "OpCopyRecord", "OpReplaceKeyed", "OpSetDbRef",
    "OpPreAllocVector", "OpGetText", "OpSetText", "OpSetShort", "OpNot",
];

fn integer() -> Type {
    Type::Integer(IntegerSpec::signed32())
}

fn text() -> Type {
    Type::Text(Deps::none())
}

fn vector(of: Type) -> Type {
    Type::Vector(Box::new(of), Deps::none())
}

fn operators() -> Data {
    let mut data = Data { definitions: Vec::new() };
    for name in OPERATORS {
        let mut op = Definition::new(name, DefType::Function);
        op.original_name = name[2..].to_string();
        data.definitions.push(op);
    }
    data
}

fn no_types() -> Stores {
    Stores { types: vec![] }
}

fn base(name: &str, size: u16) -> StoredType {
    StoredType {
        name: name.to_string(),
        parts: Parts::Base,
        size,
        content: u16::MAX,
        key: String::new(),
        fields: vec![],
        variants: vec![],
    }
}

fn call(data: &Data, name: &str, args: Vec<Value>) -> Value {
    let d = data.def_nr(name);
    assert_ne!(d, u32::MAX, "{name} is not defined");
    Value::Call(d, args)
}

fn shown(v: &Value) -> String {
    format!("{v:?}")
}

fn var(name: &str, tp: Type) -> Variable {
    Variable::plain(name.to_string(), tp)
}

fn argument(name: &str, tp: Type) -> Variable {
    let mut v = var(name, tp);
    v.argument = true;
    v
}

fn attribute(name: &str, tp: Type) -> Attribute {
    Attribute {
        name: name.to_string(),
        typedef: tp,
        hidden: false,
        nullable: true,
        work_buffer: false,
    }
}

fn frame(vars: Vec<Variable>) -> Function {
    let mut f = Function::new();
    f.variables = vars;
    f
}

fn holder() -> Holder {
    Holder { def: 3, known: 9, position: 4, content: 8 }
}

fn narrow(min: i32, max: u32, size: u8) -> Type {
    Type::Integer(IntegerSpec { min, max, not_null: false, forced_size: size })
}

#[test]
fn lambdas_are_numbered() {
    assert_eq!(lambda_name(0), ("__lambda_0".to_string(), "n___lambda_0".to_string()));
    assert_eq!(lambda_name(120).1, "n___lambda_120");
}

#[test]
fn a_lambda_sees_its_function_before_what_that_captures() {
    let vars = frame(vec![
        var("n", integer()),
        var("r", Type::RefVar(Box::new(text()))),
    ]);
    let outer = vec![
        Capture { name: "n".to_string(), tp: text() },
        Capture { name: "far".to_string(), tp: integer() },
    ];
    let owners = vec![Owner { name: "far".to_string(), def: 3 }];
    let (scope, known) = enter_capture_scope(&vars, 7, &outer, &owners);
    let names: Vec<&str> = scope.iter().map(|c| c.name.as_str()).collect();
    assert_eq!(names, ["n", "r", "far"]);
    assert!(matches!(scope[0].tp, Type::Integer(_)), "the nearer `n` shadows the further one");
    assert!(matches!(scope[1].tp, Type::Text(_)), "a `&` parameter offers what it points at");
    let holder = |name: &str| known.iter().find(|o| o.name == name).map(|o| o.def);
    assert_eq!(holder("far"), Some(3));
    assert_eq!(holder("n"), Some(7));
}

#[test]
fn a_lambda_relays_what_an_inner_one_reaches_for() {
    let vars = frame(vec![var("own", integer())]);
    let scope = vec![
        Capture { name: "far".to_string(), tp: integer() },
        Capture { name: "own".to_string(), tp: integer() },
    ];
    let inner = |names: &[&str]| {
        names
            .iter()
            .map(|n| Capture { name: n.to_string(), tp: text() })
            .collect::<Vec<Capture>>()
    };
    let mut own = Vec::new();
    relay_nested_captures(&vars, &scope, &mut own, &inner(&["own", "far", "nowhere", "far"]));
    assert_eq!(own.len(), 1);
    assert_eq!(own[0].name, "far");
    assert!(matches!(own[0].tp, Type::Integer(_)), "by the type that the scope offers");
}

#[test]
fn replacing_a_record_parameter_in_a_closure_is_refused() {
    let vars = frame(vec![
        argument("p", vector(integer())),
        argument("n", integer()),
        var("l", vector(integer())),
    ]);
    let names: Vec<String> = ["p", "n", "l", "x"].iter().map(|s| s.to_string()).collect();
    assert_eq!(reject_rebound_heap_parameter_captures(&vars, &names), ["p"]);
}

/// A definition that holds capture `n` in its record, and the stored type of the record.
fn relaying() -> (Data, Stores, u32) {
    let mut data = operators();
    let mut record = Definition::new("__closure_0", DefType::Struct);
    record.known_type = 0;
    record.attributes.push(attribute("n", integer()));
    let record_nr = data.definitions.len() as u32;
    data.definitions.push(record);
    let mut f = Definition::new("n___lambda_0", DefType::Function);
    f.closure_record = record_nr;
    let context = data.definitions.len() as u32;
    data.definitions.push(f);
    let mut tp = base("__closure_0", 12);
    tp.fields.push(Field { name: "n".to_string(), position: 4, content: 0 });
    (data, Stores { types: vec![tp] }, context)
}

#[test]
fn a_relayed_capture_is_read_from_the_own_record() {
    let (data, stores, context) = relaying();
    let record = data.def(context).closure_record;
    assert_eq!(relayed_capture_attr(&data, context, 2, "n", false), Some((record, 0)));
    assert_eq!(relayed_capture_attr(&data, context, 2, "m", false), None);
    assert_eq!(relayed_capture_attr(&data, context, 2, "n", true), None);
    assert_eq!(relayed_capture_attr(&data, context, u16::MAX, "n", false), None);
    let read = relayed_capture_read(&data, &stores, context, 2, "n", false).unwrap();
    let want = call(&data, "OpGetInt", vec![Value::Var(2), Value::Int(4)]);
    assert_eq!(shown(&read), shown(&want));
    let write = set_field(&data, &stores, record, 0, Value::Var(2), Value::Int(9));
    let want = call(&data, "OpSetInt", vec![Value::Var(2), Value::Int(4), Value::Int(9)]);
    assert_eq!(shown(&write), shown(&want));
    assert_eq!(shown(&get_field(&data, &stores, record, 1, Value::Var(2))), "Null");
}

#[test]
fn a_lambda_without_captures_is_its_number() {
    let mut data = operators();
    let lambda = data.definitions.len() as u32;
    data.definitions.push(Definition::new("n___lambda_0", DefType::Function));
    let mut vars = frame(vec![]);
    let out = emit_lambda_code(
        &mut data,
        &mut no_types(),
        &mut vars,
        lambda,
        lambda,
        u16::MAX,
        &Type::Void,
        false,
    );
    assert_eq!(shown(&out.code), shown(&Value::Int(lambda as i32)));
    assert_eq!(out.work, None);
    assert!(vars.variables.is_empty());
}

#[test]
fn a_lambda_with_captures_carries_its_record() {
    let (mut data, mut stores, lambda) = relaying();
    let context = data.definitions.len() as u32;
    let mut parent = Definition::new("n_test", DefType::Function);
    parent.returned = Type::Function(vec![], Box::new(Type::Void), Deps::none());
    data.definitions.push(parent);
    let mut vars = frame(vec![var("n", integer())]);
    let first = emit_lambda_code(
        &mut data,
        &mut stores,
        &mut vars,
        lambda,
        context,
        u16::MAX,
        &text(),
        true,
    );
    assert_eq!(first.work, None, "the first pass has no record yet");
    let out = emit_lambda_code(
        &mut data,
        &mut stores,
        &mut vars,
        lambda,
        context,
        u16::MAX,
        &text(),
        false,
    );
    assert_eq!(out.work, Some(1));
    assert_eq!(out.captured, [0]);
    assert!(vars.variables[0].captured);
    assert!(vars.variables[1].work_ref && vars.variables[1].defined);
    match &out.code {
        Value::Block(b) => {
            assert_eq!(b.name, "fn_ref_with_closure");
            let want = [
                Value::Assign(1, Box::new(Value::Null)),
                call(&data, "OpDatabase", vec![Value::Var(1), Value::Int(0)]),
                call(&data, "OpSetInt", vec![Value::Var(1), Value::Int(4), Value::Var(0)]),
            ];
            for (got, want) in b.operators.iter().zip(want.iter()) {
                assert_eq!(shown(got), shown(want));
            }
            assert!(
                matches!(&b.operators[3], Value::FnRef(d, 1, _) if *d == lambda as i32),
                "{:?}",
                b.operators[3]
            );
        }
        other => panic!("expected a block; got {other:?}"),
    }
    match &data.def(context).returned {
        Type::Function(_, ret, deps) => {
            assert!(matches!(**ret, Type::Text(_)));
            assert_eq!(deps.vars, [1]);
        }
        other => panic!("the function still answers a function: {other:?}"),
    }
}

#[test]
fn an_absent_collection_gets_a_slot_to_share_and_stays_absent() {
    let mut data = operators();
    let mut wrapper = Definition::new("main_vector<integer>", DefType::Vector);
    wrapper.known_type = 0;
    wrapper.attributes.push(attribute("vector", vector(integer())));
    data.definitions.push(wrapper);
    let mut tp = base("main_vector<integer>", 8);
    tp.fields.push(Field { name: "vector".to_string(), position: 4, content: 0 });
    let mut stores = Stores { types: vec![tp] };
    let mut vars = frame(vec![
        var("v", Type::Optional(Box::new(vector(integer())))),
        var("w", vector(integer())),
        argument("p", Type::Optional(Box::new(vector(integer())))),
    ]);
    for v in [1, 2] {
        let steps = null_capture_backing(&data, &mut stores, &mut vars, v, false);
        assert!(steps.is_empty(), "variable {v} needs none");
    }
    assert!(null_capture_backing(&data, &mut stores, &mut vars, 0, true).is_empty());
    let steps = null_capture_backing(&data, &mut stores, &mut vars, 0, false);
    assert_eq!(steps.len(), 1);
    let db = 3;
    let want = Value::If(
        Box::new(call(&data, "OpRefIsNull", vec![Value::Var(0)])),
        Box::new(Value::Insert(vec![
            call(&data, "OpDatabase", vec![Value::Var(db), Value::Int(0)]),
            Value::Assign(
                0,
                Box::new(call(
                    &data,
                    "OpGetField",
                    vec![Value::Var(db), Value::Int(4), Value::Int(0)],
                )),
            ),
            call(&data, "OpSetInt4", vec![Value::Var(db), Value::Int(4), Value::Int(-1)]),
        ])),
        Box::new(Value::Null),
    );
    assert_eq!(shown(&steps[0]), shown(&want));
    let again = null_capture_backing(&data, &mut stores, &mut vars, 0, false);
    assert!(again.is_empty(), "it has its slot now");
}

#[test]
fn function_references_are_resolved_by_name() {
    let mut data = operators();
    let mut f = Definition::new("n_twice", DefType::Function);
    f.attributes.push(attribute("x", integer()));
    data.definitions.push(f);
    data.definitions.push(Definition::new("S", DefType::Struct));
    let d = data.def_nr("n_twice");
    assert_eq!(parse_fn_ref(&data, "twice", false), Ok(d));
    assert_eq!(parse_fn_ref(&data, "thrice", false), Err(FnRefError::Unknown));
    assert_eq!(parse_fn_ref(&data, "S", false), Err(FnRefError::NotAFunction));
    assert_eq!(parse_fn_ref(&data, "S", true), Ok(data.def_nr("S")));
    match fn_ref_value(&data, d, &integer()) {
        (code, Type::Function(params, _, deps)) => {
            assert_eq!(shown(&code), shown(&Value::Int(d as i32)));
            assert_eq!(params.len(), 1);
            assert!(deps.vars.is_empty());
        }
        other => panic!("{other:?}"),
    }
}

#[test]
fn a_lambda_inherits_the_restriction_of_its_function() {
    let mut s = vec![Sandboxed { def: 4, profile: "pure".to_string() }];
    mark_lambda_sandboxed(&mut s, 9, 10);
    assert_eq!(s.len(), 1, "nothing is inherited from an unrestricted function");
    mark_lambda_sandboxed(&mut s, 4, 10);
    mark_lambda_sandboxed(&mut s, 10, 11);
    let profile = |d: u32| s.iter().find(|p| p.def == d).map(|p| p.profile.as_str());
    assert_eq!(profile(10), Some("pure"));
    assert_eq!(profile(11), Some("pure"));
    assert_eq!(profile(9), None);
}

#[test]
fn short_lambdas_take_their_types_from_their_place() {
    let hint = Type::Function(vec![integer()], Box::new(text()), Deps::none());
    let names: Vec<String> = vec!["x".to_string(), "y".to_string()];
    let params = infer_params(&names, &hint);
    assert!(matches!(params[0].tp, Type::Integer(_)));
    assert!(matches!(params[1].tp, Type::Unknown(0)));
    assert_eq!(unresolved_params(&params, false), ["y"]);
    assert!(unresolved_params(&params, true).is_empty());
    let (store, infer) = lambda_return(None, &hint, true);
    assert!(matches!(store, Some(Type::Text(_))));
    assert!(!infer);
    let (store, infer) = lambda_return(None, &Type::Unknown(0), true);
    assert!(matches!(store, Some(Type::Void)));
    assert!(infer, "the body says what is returned");
    let (store, infer) = lambda_return(None, &Type::Unknown(0), false);
    assert!(store.is_none() && infer);
    let (store, infer) = lambda_return(Some(Type::Boolean), &hint, false);
    assert!(matches!(store, Some(Type::Boolean)));
    assert!(!infer);
    match lambda_type(&params, &text(), Some(3)) {
        Type::Function(ts, _, deps) => {
            assert_eq!(ts.len(), 2);
            assert_eq!(deps.vars, [3]);
        }
        other => panic!("{other:?}"),
    }
}

#[test]
fn parameters_are_declared_in_one_pass_and_typed_in_the_next() {
    let mut data = operators();
    let lambda = data.definitions.len() as u32;
    let mut def = Definition::new("n___lambda_0", DefType::Function);
    def.attributes.push(attribute("x", Type::Unknown(0)));
    data.definitions.push(def);
    let mut vars = frame(vec![]);
    let open = vec![Capture { name: "x".to_string(), tp: Type::Unknown(0) }];
    declare_params(&data, &mut vars, &open, true);
    assert_eq!(vars.variables.len(), 1);
    assert!(vars.variables[0].argument);
    let known = vec![Capture { name: "x".to_string(), tp: integer() }];
    declare_params(&data, &mut vars, &known, false);
    assert!(matches!(vars.tp(0), Type::Integer(_)));
    settle_params(&mut data, lambda, &open);
    assert!(matches!(data.def(lambda).attributes[0].typedef, Type::Unknown(_)));
    settle_params(&mut data, lambda, &known);
    assert!(matches!(data.def(lambda).attributes[0].typedef, Type::Integer(_)));
}

#[test]
fn captures_arrive_as_the_last_parameter() {
    let (mut data, _, lambda) = relaying();
    let mut vars = frame(vec![]);
    assert_eq!(add_closure_param(&mut data, &mut vars, lambda, true), None);
    assert_eq!(add_closure_param(&mut data, &mut vars, lambda, false), Some(0));
    assert_eq!(vars.name(0), "__closure");
    assert!(vars.is_argument(0));
    assert_eq!(data.def(lambda).attributes.last().unwrap().name, "__closure");
}

fn operand(value: Value, tp: Type, formatted: Vec<Value>) -> Operand {
    Operand { value, tp, formatted }
}

#[test]
fn vectors_are_appended_to_their_variable() {
    let data = operators();
    let mut vars = frame(vec![
        var("a", vector(integer())),
        var("b", vector(integer())),
        argument("r", Type::RefVar(Box::new(vector(integer())))),
    ]);
    let parts = vec![operand(Value::Var(1), vector(integer()), vec![])];
    let app = |v: u16, x: Value| {
        shown(&call(&data, "OpAppendVector", vec![Value::Var(v), x, Value::Int(5)]))
    };
    let mut run = |code: Value, target: Option<u16>, buffer: Option<u16>| {
        parse_append_vector(
            &data,
            &mut vars,
            holder(),
            code,
            &vector(integer()),
            &parts,
            target,
            5,
            buffer,
            false,
        )
    };
    let steps = |v: &Value| match v {
        Value::Insert(s) => s.iter().map(shown).collect::<Vec<String>>(),
        other => panic!("expected statements; got {other:?}"),
    };
    // a = b + b: the elements of another variable are copied
    let r = run(Value::Var(1), Some(0), None);
    assert_eq!(steps(&r.code), [app(0, Value::Var(1)), app(0, Value::Var(1))]);
    assert!(matches!(r.tp, Type::Rewritten(_)));
    // a = a + b: the variable keeps what it has
    let r = run(Value::Var(0), Some(0), None);
    assert_eq!(
        steps(&r.code),
        [shown(&Value::Assign(0, Box::new(Value::Var(0)))), app(0, Value::Var(1))]
    );
    // a = f() + b: the variable takes over the storage of the call
    let r = run(Value::Call(0, vec![]), Some(0), Some(8));
    match r.tp {
        Type::Rewritten(t) => assert_eq!(t.depend(), [8]),
        other => panic!("{other:?}"),
    }
    // r = a + b, r += b
    let r = run(Value::Var(0), Some(2), None);
    assert!(r.in_parameter);
    let r = run(Value::Var(2), Some(2), None);
    assert!(!r.in_parameter);
    assert_eq!(steps(&r.code), [app(2, Value::Var(1))]);
    // f(a + b): a temporary
    let r = run(Value::Var(0), None, None);
    assert!(r.temporary);
    match &r.code {
        Value::Block(b) => {
            assert_eq!(b.name, "Append Vector");
            assert_eq!(shown(b.operators.last().unwrap()), shown(&Value::Var(3)));
            assert_eq!(b.operators.len(), 6);
        }
        other => panic!("{other:?}"),
    }
}

#[test]
fn elements_that_are_stored_otherwise_are_not_concatenated() {
    let data = operators();
    let mut vars = frame(vec![var("a", vector(narrow(0, 255, 1)))]);
    let parts = vec![operand(Value::Var(0), vector(integer()), vec![])];
    let tp = vector(narrow(0, 255, 1));
    let r = parse_append_vector(
        &data,
        &mut vars,
        holder(),
        Value::Var(0),
        &tp,
        &parts,
        Some(0),
        5,
        None,
        false,
    );
    assert_eq!(r.mixed, [Mixed::Widths(1, 8)]);
    assert_eq!(
        refuse_mixed_element_encoding(&tp, &vector(narrow(-128, 127, 1)), false),
        Some(Mixed::Offsets(1))
    );
    assert_eq!(refuse_mixed_element_encoding(&tp, &vector(narrow(-128, 127, 1)), true), None);
    assert_eq!(refuse_mixed_element_encoding(&tp, &tp, false), None);
    assert_eq!(refuse_mixed_element_encoding(&tp, &text(), false), None);
}

#[test]
fn texts_are_appended_by_what_they_are() {
    let data = operators();
    let vars = frame(vec![var("t", text()), argument("r", Type::RefVar(Box::new(text())))]);
    let parts = || {
        vec![
            operand(Value::Int(65), Type::Character, vec![]),
            operand(Value::Var(1), Type::RefVar(Box::new(text())), vec![]),
            operand(Value::Int(9), integer(), vec![Value::Line(7)]),
        ]
    };
    let start = || Value::Text("a".to_string());
    let (code, tp) = parse_append_text(&data, &vars, start(), &text(), &parts(), Some(0), 0);
    assert!(matches!(tp, Type::Rewritten(_)));
    let on = |op: &str, v: u16, x: Value| shown(&call(&data, op, vec![Value::Var(v), x]));
    match &code {
        Value::Insert(s) => assert_eq!(
            s.iter().map(shown).collect::<Vec<String>>(),
            [
                on("OpAppendText", 0, start()),
                on("OpAppendCharacter", 0, Value::Int(65)),
                on("OpAppendText", 0, Value::Var(1)),
                shown(&Value::Line(7)),
            ]
        ),
        other => panic!("{other:?}"),
    }
    let (code, _) = parse_append_text(&data, &vars, start(), &text(), &parts(), Some(1), 0);
    match &code {
        Value::Insert(s) => {
            assert_eq!(shown(&s[0]), on("OpAppendStackText", 1, start()));
            assert_eq!(shown(&s[1]), on("OpAppendStackCharacter", 1, Value::Int(65)));
        }
        other => panic!("{other:?}"),
    }
    let (code, tp) =
        parse_append_text(&data, &vars, Value::Int(65), &Type::Character, &parts(), None, 0);
    assert!(matches!(tp, Type::Text(_)));
    match &code {
        Value::Block(b) => {
            assert_eq!(b.name, "Add text");
            assert_eq!(shown(&b.operators[0]), shown(&call(&data, "OpClearText", vec![Value::Var(0)])));
            assert_eq!(shown(&b.operators[1]), on("OpAppendCharacter", 0, Value::Int(65)));
            assert_eq!(shown(b.operators.last().unwrap()), shown(&Value::Var(0)));
        }
        other => panic!("{other:?}"),
    }
}

#[test]
fn a_second_operand_that_may_be_absent_counts_as_false() {
    let data = operators();
    let (a, b) = (|| Value::Var(1), || Value::Var(2));
    let no = || Box::new(Value::Boolean(false));
    let yes = || Box::new(Value::Boolean(true));
    let (code, open) =
        boolean_operator(&data, a(), &Type::Boolean, b(), &Type::Boolean, false, false);
    assert_eq!(shown(&code), shown(&Value::If(Box::new(a()), Box::new(b()), no())));
    assert!(!open);
    let (code, _) = boolean_operator(&data, a(), &Type::Boolean, b(), &Type::Boolean, true, false);
    assert_eq!(shown(&code), shown(&Value::If(Box::new(a()), yes(), Box::new(b()))));
    let definite = call(&data, "OpEqBool", vec![b(), Value::Boolean(true)]);
    for tp in [Type::Null, Type::Optional(Box::new(Type::Boolean))] {
        let (code, _) = boolean_operator(&data, a(), &Type::Boolean, b(), &tp, false, false);
        assert_eq!(
            shown(&code),
            shown(&Value::If(Box::new(a()), Box::new(definite.copy()), no()))
        );
    }
    let (_, open) = boolean_operator(&data, a(), &Type::Unknown(0), b(), &Type::Boolean, true, true);
    assert!(open);
}

#[test]
fn operands_are_told_by_their_first_token() {
    assert_eq!(form("!", false), Form::Not);
    assert_eq!(form("(", false), Form::Parenthesis);
    assert_eq!(form("[", false), Form::Vector);
    assert_eq!(form("fn", true), Form::Lambda);
    assert_eq!(form("fn", false), Form::FnName);
    assert_eq!(form("||", false), Form::EmptyLambda);
    assert_eq!(form("|", false), Form::ShortLambda);
    assert_eq!(form("debug_assert", true), Form::Reserved);
    assert_eq!(form("null", false), Form::Null);
    assert_eq!(form("name", false), Form::Other);
}

#[test]
fn literals_have_their_code_and_type() {
    let data = operators();
    let (v, t) = literal_value(&data, Literal::Integer(7));
    assert!(matches!((v, t), (Value::Int(7), Type::Integer(_))));
    let (v, t) = literal_value(&data, Literal::Float(1.5f64.to_bits()));
    assert!(matches!((&v, &t), (Value::Float(b), Type::Float) if *b == 1.5f64.to_bits()));
    let (v, t) = literal_value(&data, Literal::Character(65));
    assert_eq!(shown(&v), shown(&call(&data, "OpConvCharacterFromInt", vec![Value::Int(65)])));
    assert!(matches!(t, Type::Character));
    let (v, t) = literal_value(&data, Literal::Null);
    assert!(matches!((v, t), (Value::Null, Type::Null)));
}

#[test]
fn prefix_operators_warn_where_they_surprise() {
    let sure = Type::Integer(IntegerSpec { min: 0, max: 9, not_null: true, forced_size: 0 });
    assert!(redundant_negation(&sure, false, false));
    assert!(!redundant_negation(&sure, false, true));
    assert!(redundant_negation(&Type::RefVar(Box::new(sure)), false, false));
    assert!(redundant_negation(&text(), true, false));
    assert!(!redundant_negation(&text(), false, false));
    assert!(!redundant_negation(&Type::Boolean, true, false));
    assert!(minus_binds_tighter(&Value::Var(1), true, false));
    assert!(!minus_binds_tighter(&Value::Span(3, Box::new(Value::Int(2))), true, false));
    assert!(!minus_binds_tighter(&Value::Var(1), false, false));
}

#[test]
fn tuple_members_pass_on_what_a_lambda_takes() {
    let f = || Type::Function(vec![integer()], Box::new(integer()), Deps::none());
    let nested = Type::Tuple(vec![Type::Tuple(vec![f(), integer()]), text()]);
    assert!(matches!(
        tuple_member_hint(&nested, &Type::Unknown(0), 0),
        Some(Type::Tuple(_))
    ));
    assert!(tuple_member_hint(&nested, &Type::Unknown(0), 1).is_none());
    assert!(tuple_member_hint(&Type::Unknown(0), &nested, 0).is_some());
    assert!(tuple_member_hint(&nested, &Type::Unknown(0), 2).is_none());
    assert!(tuple_member_hint(&integer(), &integer(), 0).is_none());
}

#[test]
fn a_concatenation_is_not_a_receiver() {
    let built = Value::Insert(vec![]);
    let tp = Type::Rewritten(Box::new(vector(integer())));
    assert!(refuse_method_on_concat(&built, &tp, true, false));
    assert!(!refuse_method_on_concat(&built, &tp, false, false));
    assert!(!refuse_method_on_concat(&Value::Var(0), &tp, true, false));
    assert!(!refuse_method_on_concat(&built, &Type::Rewritten(Box::new(text())), true, false));
}

#[test]
fn a_literal_is_built_against_what_its_place_says() {
    let open = Type::Unknown(0);
    let keyed = Type::Hash(3, "k".to_string(), Deps::none());
    let bytes = vector(narrow(0, 255, 1));
    assert!(matches!(find_literal_type(&open, &keyed, &open, false, false), Type::Hash(..)));
    assert!(matches!(find_literal_type(&open, &bytes, &open, false, false), Type::Unknown(0)));
    assert!(matches!(find_literal_type(&open, &bytes, &open, true, false), Type::Vector(..)));
    assert!(matches!(find_literal_type(&open, &open, &bytes, false, false), Type::Vector(..)));
    assert!(matches!(find_literal_type(&text(), &keyed, &open, false, false), Type::Text(_)));
    assert!(matches!(find_literal_type(&text(), &keyed, &open, false, true), Type::Unknown(0)));
}

#[test]
fn a_literal_with_methods_behind_it_gets_a_variable_of_its_own() {
    let mut vars = frame(vec![var("d", vector(integer()))]);
    let built = Value::Insert(vec![Value::Assign(0, Box::new(Value::Null))]);
    let (code, tp) = literal_receiver(&mut vars, &built, 0);
    assert!(matches!(tp, Type::Vector(..)));
    assert!(matches!(vars.tp(0), Type::Unknown(0)), "free for what the methods answer");
    assert!(vars.variables[1].defined && vars.variables[1].inline_ref);
    match &code {
        Value::Block(b) => {
            let moved = Value::Insert(vec![Value::Assign(1, Box::new(Value::Null))]);
            assert_eq!(shown(&b.operators[0]), shown(&moved));
            assert_eq!(shown(&b.operators[1]), shown(&Value::Var(1)));
        }
        other => panic!("{other:?}"),
    }
}

#[test]
fn tuples_own_what_they_are_built_of() {
    let data = operators();
    let mut stores = no_types();
    let mut vars = frame(vec![var("v", vector(integer())), var("n", integer())]);
    let values = vec![Value::Var(0), Value::Var(1)];
    let ts = vec![vector(integer()), Type::Rewritten(Box::new(integer()))];
    let (code, tp) = build_tuple(&data, &mut stores, &mut vars, &values, &ts, true, false);
    assert_eq!(shown(&code), shown(&Value::Tuple(vec![Value::Var(0), Value::Var(1)])));
    assert!(matches!(&tp, Type::Tuple(t) if matches!(t[1], Type::Integer(_))), "{tp:?}");
    let (code, _) = build_tuple(&data, &mut stores, &mut vars, &values, &ts, false, false);
    match &code {
        Value::Tuple(s) => {
            assert_eq!(shown(&s[1]), shown(&Value::Var(1)), "a scalar needs no copy");
            let source = tuple_member_copy_source(&data, &s[0]).expect("a copy");
            assert_eq!(shown(&source), shown(&Value::Var(0)), "and its source is told");
        }
        other => panic!("{other:?}"),
    }
    assert!(tuple_member_owned_copy(&data, &mut stores, &mut vars, &values[0], &ts[0], true)
        .is_none());
    assert!(tuple_member_copy_source(&data, &Value::Var(0)).is_none());
}

#[test]
fn narrow_elements_are_written_in_their_width() {
    let data = operators();
    let byte = narrow(10, 200, 1);
    let (kind, min) = narrow_elm_kind(&byte).expect("a narrow element");
    assert_eq!((kind, min), (NarrowIntKind::Byte, 10));
    let write = narrow_elm_write(&byte, Value::Var(1), &Value::Int(12), &data).unwrap();
    let want = call(
        &data,
        "OpSetByte",
        vec![Value::Var(1), Value::Int(0), Value::Int(10), Value::Int(12)],
    );
    assert_eq!(shown(&write), shown(&want));
    let read = narrow_elm_read(&byte, Value::Var(1), &data).unwrap();
    let want = call(&data, "OpGetByte", vec![Value::Var(1), Value::Int(0), Value::Int(10)]);
    assert_eq!(shown(&read), shown(&want));
    let kind = |t: &Type| narrow_elm_kind(t).expect("a narrow element").0;
    let maybe = |t: Type| Type::Optional(Box::new(t));
    assert_eq!(kind(&maybe(narrow(10, 200, 1))), NarrowIntKind::ByteNullable);
    assert_eq!(kind(&narrow(0, 65535, 2)), NarrowIntKind::ShortRaw);
    assert_eq!(kind(&narrow(0, 5000, 0)), NarrowIntKind::ShortFull, "the range comes to it");
    assert_eq!(kind(&maybe(narrow(0, 5000, 2))), NarrowIntKind::Short);
    assert_eq!(kind(&narrow(-5, 2_000_000_000, 4)), NarrowIntKind::Int4);
    assert_eq!(kind(&narrow(0, u32::MAX, 4)), NarrowIntKind::Int4Raw);
    let short = narrow_elm_write(&narrow(0, 5000, 0), Value::Var(1), &Value::Int(12), &data).unwrap();
    assert_eq!(
        shown(&short),
        shown(&call(
            &data,
            "OpSetShortRaw",
            vec![Value::Var(1), Value::Int(0), Value::Int(0), Value::Int(12)]
        ))
    );
    let four = narrow_elm_write(&narrow(-5, 9, 4), Value::Var(1), &Value::Int(7), &data).unwrap();
    assert_eq!(
        shown(&four),
        shown(&call(&data, "OpSetInt4", vec![Value::Var(1), Value::Int(0), Value::Int(7)]))
    );
    assert!(narrow_elm_kind(&integer()).is_none());
    assert!(narrow_elm_write(&text(), Value::Var(1), &Value::Int(1), &data).is_none());
}

#[test]
fn stored_types_are_registered_once() {
    let mut data = operators();
    let mut r = Definition::new("R", DefType::Struct);
    r.known_type = 0;
    data.definitions.push(r);
    let d = data.def_nr("R");
    let mut stores = Stores { types: vec![base("R", 8)] };
    let tp = Type::Hash(d, "k".to_string(), Deps::none());
    let first = keyed_known_type(&mut stores, &data, &tp);
    assert_eq!(first, Some(1));
    assert_eq!(keyed_known_type(&mut stores, &data, &tp), Some(1));
    assert_eq!(stores.types.len(), 2);
    assert_eq!(keyed_known_type(&mut stores, &data, &vector(integer())), None);
    assert_eq!(get_type(&mut stores, &data, &tp, true), u16::MAX);
    assert_eq!(get_type(&mut stores, &data, &tp, false), 1);
    let known = get_type(&mut stores, &data, &Type::Reference(d, Deps::none()), false);
    assert_eq!(known, 0);
    let mut ordered = base("", 4);
    ordered.parts = Parts::Ordered;
    ordered.content = 0;
    ordered.key = "k".to_string();
    stores.types.push(ordered);
    let sorted = Type::Sorted(d, "k".to_string(), Deps::none());
    assert_eq!(get_type(&mut stores, &data, &sorted, false), 2, "one that is there is taken");
    assert_eq!(keyed_known_type(&mut stores, &data, &sorted), Some(3));
    assert_eq!(get_type(&mut stores, &data, &sorted, false), 3);
}

#[test]
fn the_source_of_an_append_is_a_collection_or_an_element() {
    let v = vector(integer());
    assert_eq!(append_source(&v, &v, false, false), AppendSource::Whole);
    assert_eq!(append_source(&v, &integer(), true, false), AppendSource::Element);
    assert_eq!(append_source(&v, &text(), false, false), AppendSource::Unrelated);
    assert!(holds_element(&integer(), &integer(), false, false));
    assert!(!holds_element(&integer(), &text(), false, false));
    assert!(holds_element(&integer(), &text(), true, false));
    assert!(!holds_element(&Type::Unknown(0), &text(), true, true));
    let keyed = Type::Sorted(3, "k".to_string(), Deps::none());
    assert_eq!(refuse_keyed_vector_element(&keyed), Some("sorted"));
    assert_eq!(refuse_keyed_vector_element(&v), None);
}

#[test]
fn places_are_told_by_their_steps() {
    let data = operators();
    let field = call(&data, "OpGetField", vec![Value::Var(2), Value::Int(8), Value::Int(1)]);
    let (root, path) = field_place(&data, &field).unwrap();
    assert_eq!((root, path), (2, vec![PlaceStep::Field(8)]));
    let element = call(&data, "OpGetVector", vec![field, Value::Int(4), Value::Var(6)]);
    let (root, path) = field_place(&data, &element).unwrap();
    assert_eq!((root, path), (2, vec![PlaceStep::Field(8), PlaceStep::ElemVar(6)]));
    assert!(field_place(&data, &Value::Int(1)).is_none());
}

#[test]
fn a_comprehension_that_reads_its_destination_is_told() {
    let data = operators();
    let a = Assignment { target: 1, replaces: true };
    let none: Vec<u16> = vec![];
    let parts = vec![call(&data, "OpGetInt", vec![Value::Var(1), Value::Int(0)])];
    assert!(comprehension_reads_target(a, 1, true, &none, &parts));
    assert!(!comprehension_reads_target(a, 2, true, &none, &parts));
    assert!(!comprehension_reads_target(a, 1, false, &none, &parts));
    let plus = Assignment { target: 1, replaces: false };
    assert!(!comprehension_reads_target(plus, 1, true, &none, &parts));
    assert!(comprehension_needs_own_buffer(&data, plus, 1, &Value::Var(1), true, false, &parts));
    let run = |a: Assignment, fills: bool, unrolls: bool, parts: &Vec<Value>| {
        comprehension_strategy(
            &data,
            a,
            1,
            &Value::Var(1),
            true,
            false,
            &none,
            parts,
            &integer(),
            fills,
            unrolls,
        )
    };
    assert_eq!(run(plus, true, true, &parts), Strategy::OwnBuffer);
    assert_eq!(run(a, true, true, &parts), Strategy::Loop);
    assert_eq!(run(a, true, true, &vec![]), Strategy::Fill);
    assert_eq!(run(a, false, true, &vec![]), Strategy::Unrolled);
    assert_eq!(run(a, false, false, &vec![]), Strategy::Loop);
}

#[test]
fn known_comprehensions_are_literals() {
    let fill = try_const_fill_comprehension(
        true,
        &Value::Null,
        Some(Value::Int(5)),
        true,
        &Value::Int(3),
        &Value::Int(3),
    )
    .expect("a fill");
    assert_eq!(shown(&fill[0]), shown(&Value::Int(5)));
    assert!(try_const_fill_comprehension(
        false,
        &Value::Null,
        Some(Value::Int(5)),
        true,
        &Value::Int(3),
        &Value::Int(3)
    )
    .is_none());
    let values = vec![Some(Value::Int(4)), Some(Value::Int(5)), Some(Value::Int(6))];
    let keep = vec![Some(true), Some(false), Some(true)];
    let got = try_const_unroll_comprehension(Some((0, 3)), true, &keep, &values).unwrap();
    assert_eq!(got.iter().map(shown).collect::<Vec<String>>(), ["Int(4)", "Int(6)"]);
    let open = vec![Some(true), None, Some(true)];
    assert!(try_const_unroll_comprehension(Some((0, 3)), true, &open, &values).is_none());
    assert!(try_const_unroll_comprehension(None, false, &keep, &values).is_none());
}

#[test]
fn a_local_keyed_collection_is_made_on_its_first_write() {
    let mut data = operators();
    let mut r = Definition::new("R", DefType::Struct);
    r.known_type = 0;
    data.definitions.push(r);
    let d = data.def_nr("R");
    let mut stores = Stores { types: vec![base("R", 8)] };
    let keyed = Type::Hash(d, "k".to_string(), Deps::none());
    let mut vars = frame(vec![
        var("h", Type::Optional(Box::new(keyed.copy()))),
        var("sure", keyed),
    ]);
    let made = keyed_local_materialise(&data, &mut stores, &mut vars, 0, false).unwrap();
    match &made {
        Value::If(test, _, _) => {
            assert_eq!(shown(test), shown(&call(&data, "OpVectorIsNull", vec![Value::Var(0)])));
        }
        other => panic!("{other:?}"),
    }
    assert!(keyed_local_materialise(&data, &mut stores, &mut vars, 1, false).is_none());
    assert!(keyed_local_materialise(&data, &mut stores, &mut vars, 0, true).is_none());
}

#[test]
fn function_values_are_stored_by_their_number() {
    let f = || Type::Function(vec![], Box::new(Type::Void), Deps::none());
    let mut vars = frame(vec![var("f", f())]);
    let (v, steps) = fn_ref_slot_dnr(&mut vars, &Value::Int(4), &f());
    assert_eq!(shown(&v), "Int(4)");
    assert!(steps.is_empty());
    let (v, _) = fn_ref_slot_dnr(&mut vars, &Value::Var(0), &f());
    assert_eq!(shown(&v), shown(&Value::FnRefDnr(0)));
    let (v, steps) = fn_ref_slot_dnr(&mut vars, &Value::Call(3, vec![]), &f());
    assert_eq!(shown(&v), shown(&Value::FnRefDnr(1)));
    assert_eq!(shown(&steps[0]), shown(&Value::Assign(1, Box::new(Value::Call(3, vec![])))));
    assert!(vars.variables[1].skip_free);
}

#[test]
fn a_vector_variable_gets_a_record_of_its_own() {
    let data = operators();
    let mut vars = frame(vec![var("v", vector(integer())), argument("p", vector(integer()))]);
    assert!(vector_needs_db(&vars, 0, &integer(), true));
    assert!(!vector_needs_db(&vars, 1, &integer(), true));
    assert!(!vector_needs_db(&vars, 0, &Type::Void, true));
    let steps = vector_db_init(&data, &mut vars, holder(), 0, 0, false, false);
    let want = [
        call(&data, "OpDatabase", vec![Value::Var(2), Value::Int(9)]),
        Value::Assign(
            0,
            Box::new(call(
                &data,
                "OpGetField",
                vec![Value::Var(2), Value::Int(4), Value::Int(8)],
            )),
        ),
        call(&data, "OpSetInt4", vec![Value::Var(2), Value::Int(4), Value::Int(0)]),
    ];
    assert_eq!(
        steps.iter().map(shown).collect::<Vec<String>>(),
        want.iter().map(shown).collect::<Vec<String>>()
    );
    assert_eq!(vars.tp(0).depend(), [2]);
    assert!(!vector_needs_db(&vars, 0, &integer(), true));
    assert!(vector_db_init(&data, &mut vars, holder(), 1, 0, false, false).is_empty());
    assert_eq!(find_holder(&data, &no_types(), &vector(integer())).def, u32::MAX);
}

#[test]
fn the_element_type_of_a_literal_is_settled() {
    let data = operators();
    let (t, declared) = assign_type(&data, &vector(integer()));
    assert!(matches!(t, Type::Integer(_)) && declared);
    let (_, declared) = assign_type(&data, &vector(Type::Tuple(vec![Type::Unknown(3)])));
    assert!(!declared);
    assert!(has_unresolved(&vector(Type::Tuple(vec![integer(), Type::Unknown(0)]))));
    assert!(!has_unresolved(&vector(integer())));
    let (a, b) = reconcile(Type::Unknown(0), Type::Rewritten(Box::new(text())));
    assert!(matches!((a, b), (Type::Text(_), Type::Text(_))));
    let open = || Type::Tuple(vec![Type::Unknown(0)]);
    let known = || Type::Tuple(vec![integer()]);
    for (x, y) in [(open(), known()), (known(), open())] {
        let (a, b) = reconcile(x, y);
        assert!(!has_unresolved(&a) && !has_unresolved(&b));
    }
}

#[test]
fn elements_are_stored_converted_or_refused() {
    let mut data = operators();
    data.definitions.push(Definition::new("__nullable<S>", DefType::Enum));
    let wrapped = Type::Enum(data.def_nr("__nullable<S>"), true, Deps::none());
    let color = Type::Enum(3, false, Deps::none());
    let fits = |converts: bool, widens: bool| Fits {
        wraps: false,
        in_place: false,
        converts,
        widens,
    };
    let run = |in_t: &Type, t: &Type, f: Fits, declared: bool, first: bool| {
        item_outcome(&data, in_t, t, f, declared, first)
    };
    assert_eq!(run(&wrapped, &wrapped, fits(false, false), true, false), Outcome::AsIs);
    assert_eq!(run(&wrapped, &Type::Null, fits(false, false), true, false), Outcome::Absent);
    let wraps = Fits { wraps: true, in_place: false, converts: false, widens: false };
    assert_eq!(run(&wrapped, &text(), wraps, true, false), Outcome::Wrapped);
    assert_eq!(run(&color, &Type::Null, fits(true, true), true, false), Outcome::NullRefused);
    let open = Type::Tuple(vec![Type::Unknown(0)]);
    assert_eq!(run(&open, &integer(), fits(false, false), false, true), Outcome::Deferred);
    assert_eq!(run(&integer(), &integer(), fits(true, false), true, false), Outcome::Converted);
    assert_eq!(run(&integer(), &text(), fits(false, true), true, false), Outcome::Refused);
    assert_eq!(
        run(&Type::Single, &Type::Float, fits(false, true), true, false),
        Outcome::FloatRefused
    );
    assert_eq!(run(&integer(), &Type::Float, fits(false, true), false, false), Outcome::Widened);
    assert_eq!(run(&integer(), &text(), fits(false, false), false, false), Outcome::NoCommon);
    assert!(matches!(
        next_element_type(integer(), &Type::Float, Outcome::Widened),
        Type::Float
    ));
    assert!(matches!(
        next_element_type(integer(), &Type::Float, Outcome::Refused),
        Type::Integer(_)
    ));
}

#[test]
fn two_variants_make_elements_of_their_enumeration() {
    let mut data = operators();
    for name in ["Circle", "Square"] {
        let mut d = Definition::new(name, DefType::EnumValue);
        d.returned = Type::Enum(50, true, Deps::none());
        data.definitions.push(d);
    }
    let of = |name: &str| Type::Reference(data.def_nr(name), Deps::none());
    let fits = Fits { wraps: false, in_place: false, converts: false, widens: false };
    let o = item_outcome(&data, &of("Circle"), &of("Square"), fits, false, false);
    assert_eq!(o, Outcome::Variants(50));
    assert!(matches!(
        next_element_type(of("Circle"), &of("Square"), o),
        Type::Enum(50, true, _)
    ));
}

#[test]
fn collections_take_no_captures() {
    let mut data = operators();
    let mut maker = Definition::new("n_maker", DefType::Function);
    maker.returned = Type::Function(vec![], Box::new(Type::Void), Deps::frame1(2));
    data.definitions.push(maker);
    let d = data.def_nr("n_maker");
    let none: Vec<u16> = vec![];
    let fn_ref = |w: u16| Value::FnRef(1, w, Box::new(Type::Void));
    assert!(fn_ref_source_captures(&data, &fn_ref(2), false, &none));
    assert!(!fn_ref_source_captures(&data, &fn_ref(u16::MAX), false, &none));
    assert!(fn_ref_source_captures(&data, &Value::Var(4), false, &vec![4]));
    assert!(!fn_ref_source_captures(&data, &Value::Var(4), false, &none));
    assert!(fn_ref_source_captures(&data, &Value::Call(d, vec![]), false, &none));
    assert!(!fn_ref_source_captures(&data, &Value::Int(3), false, &none));
    assert!(fn_ref_source_captures(&data, &Value::Int(3), true, &none));
    let f = Type::Function(vec![], Box::new(Type::Void), Deps::none());
    assert!(refuse_capturing_closure_in_collection(&data, &f, &fn_ref(2), false, &none, false));
    assert!(!refuse_capturing_closure_in_collection(&data, &f, &fn_ref(2), false, &none, true));
    assert!(!refuse_capturing_closure_in_collection(
        &data,
        &integer(),
        &fn_ref(2),
        false,
        &none,
        false
    ));
}

#[test]
fn empty_literals_build_nothing_where_something_is_empty_already() {
    let data = operators();
    let field = call(&data, "OpGetField", vec![Value::Var(2), Value::Int(8), Value::Int(1)]);
    let empty = shown(&Value::Insert(vec![]));
    let (v, t) = empty_literal(&data, &vector(integer()), &Value::Var(1)).unwrap();
    assert_eq!(shown(&v), empty);
    assert!(matches!(t, Type::Rewritten(_)));
    let (v, t) = empty_literal(&data, &vector(integer()), &field).unwrap();
    assert_eq!(shown(&v), empty);
    assert!(matches!(t, Type::Vector(..)));
    let (v, _) = empty_literal(&data, &Type::Unknown(0), &Value::Null).unwrap();
    assert_eq!(shown(&v), shown(&Value::Insert(vec![Value::Null])));
    assert!(empty_literal(&data, &vector(integer()), &Value::Null).is_none());
    assert!(parse_multiply(Value::Int(3), &text()).is_none());
    let times = parse_multiply(Value::Int(3), &integer()).unwrap();
    assert_eq!(shown(&times), shown(&Value::Return(Box::new(Value::Int(3)))));
    let (t, empty) = comprehension_element(Type::Void);
    assert!(matches!(t, Type::Integer(_)) && empty);
    let (t, empty) = comprehension_element(Type::Rewritten(Box::new(text())));
    assert!(matches!(t, Type::Text(_)) && !empty);
}

#[test]
fn an_element_variable_borrows_from_its_collection() {
    let data = operators();
    let mut vars = frame(vec![var("v", vector(integer()))]);
    let parent = Type::Vector(Box::new(integer()), Deps::frame1(5));
    let elm = unique_elm_var(&data, &mut vars, &parent, &integer(), 0, 9, 8);
    assert_eq!(elm, 1);
    assert!(vars.variables[1].inline_ref);
    match vars.tp(1) {
        Type::Reference(9, deps) => {
            assert!(deps.vars.contains(&0) && deps.vars.contains(&5), "{deps:?}")
        }
        other => panic!("{other:?}"),
    }
}

fn item(value: Value) -> Item {
    Item { value, fresh: false, null: false, wraps: vec![] }
}

fn site(val: Value, vec: u16, elm: u16, in_t: Type) -> LiteralSite {
    let is_var = matches!(val, Value::Var(_));
    LiteralSite {
        val,
        parent: Type::Unknown(0),
        owner: None,
        elm,
        vec,
        in_t,
        record: 0,
        first_pass: false,
        is_var,
        is_field: false,
        unresolved: false,
        assignment: Assignment { target: vec, replaces: true },
        holder: holder(),
    }
}

#[test]
fn a_literal_in_value_position_is_a_block() {
    let data = operators();
    let mut stores = no_types();
    let mut vars = frame(vec![var("_vec_1", vector(integer())), var("_elm_1", integer())]);
    let none: Vec<u16> = vec![];
    let done = parse_vector(
        &data,
        &mut stores,
        &mut vars,
        site(Value::Null, 0, 1, integer()),
        None,
        vec![item(Value::Int(4)), item(Value::Int(5))],
        &none,
        0,
        true,
    )
    .expect("a vector of integers");
    assert_eq!(done.copies, 0);
    assert!(matches!(done.tp, Type::Vector(..)), "{:?}", done.tp);
    match &done.code {
        Value::Block(b) => {
            let of = |name: &str| {
                let d = data.def_nr(name);
                b.operators
                    .iter()
                    .filter(|v| format!("{v:?}").contains(&format!("Call({d},")))
                    .count()
            };
            assert_eq!(of("OpNewRecord"), 2, "{:?}", b.operators);
            assert_eq!(of("OpFinishRecord"), 2);
        }
        other => panic!("{other:?}"),
    }
}

#[test]
fn a_literal_that_reads_its_destination_reads_a_copy() {
    let data = operators();
    let mut stores = no_types();
    let mut vars = frame(vec![var("v", vector(integer())), var("_elm_1", integer())]);
    let none: Vec<u16> = vec![];
    let read = call(&data, "OpGetInt", vec![Value::Var(0), Value::Int(0)]);
    let done = parse_vector(
        &data,
        &mut stores,
        &mut vars,
        site(Value::Var(0), 0, 1, integer()),
        None,
        vec![item(read.copy())],
        &none,
        5,
        false,
    )
    .expect("a vector of integers");
    assert!(done.copies > 0);
    match &done.code {
        Value::Insert(s) => {
            let d = data.def_nr("OpGetInt");
            let old = shown(&read);
            let text = format!("{s:?}");
            assert!(!text.contains(&old), "the destination is not read: {text}");
            assert!(text.contains(&format!("Call({d}, [Var(2)")), "the copy is: {text}");
        }
        other => panic!("{other:?}"),
    }
}

#[test]
fn a_vector_of_keyed_collections_is_refused() {
    let data = operators();
    let mut stores = no_types();
    let mut vars = frame(vec![var("v", vector(integer())), var("_elm_1", integer())]);
    let none: Vec<u16> = vec![];
    let keyed = Type::Index(3, "k".to_string(), Deps::none());
    let r = parse_vector(
        &data,
        &mut stores,
        &mut vars,
        site(Value::Null, 0, 1, keyed),
        None,
        vec![],
        &none,
        0,
        true,
    );
    assert_eq!(r.err(), Some("index"));
}

#[test]
fn the_field_of_a_variant_is_found_by_position_and_content() {
    let data = operators();
    let field = |position: u16, content: u16| Field { name: format!("f{position}"), position, content };
    let mut shape = base("Shape", 4);
    shape.parts = Parts::Enum;
    shape.variants = vec![1, 2];
    let mut circle = base("Circle", 8);
    circle.fields = vec![field(0, 7), field(4, 8)];
    let mut square = base("Square", 8);
    square.fields = vec![field(4, 9)];
    let mut tagged = base("__nullable<Circle>", 9);
    tagged.content = 1;
    let stores = Stores { types: vec![shape, circle, square, tagged] };
    let read = |pos: i32, content: i32| {
        call(&data, "OpGetField", vec![Value::Var(3), Value::Int(pos), Value::Int(content)])
    };
    let (v, owner, nr) = new_record_field_op(&stores, &read(4, 9), 0).unwrap();
    assert_eq!((shown(&v), owner, nr), (shown(&Value::Var(3)), 2, 0));
    let (_, owner, nr) = new_record_field_op(&stores, &read(4, 8), 0).unwrap();
    assert_eq!((owner, nr), (1, 1));
    let (_, owner, nr) = new_record_field_op(&stores, &read(4, 8), 3).unwrap();
    assert_eq!((owner, nr), (1, 1), "the tagged form has the fields of its record");
    assert!(new_record_field_op(&stores, &Value::Var(1), 0).is_none());
}

#[test]
fn bodies_of_one_expression_are_recognised() {
    let body = Value::Block(Box::new(Block {
        name: "for".to_string(),
        operators: vec![Value::Line(3), Value::Int(4)],
        result: Type::Void,
    }));
    let found = body_expression(&body).expect("one expression");
    assert_eq!(shown(found), "Int(4)");
    let two = Value::Block(Box::new(Block {
        name: "for".to_string(),
        operators: vec![Value::Int(3), Value::Int(4)],
        result: Type::Void,
    }));
    assert!(body_expression(&two).is_none());
}

#[test]
fn prefixes_stand_for_operations() {
    let data = operators();
    assert_eq!(prefix_operation(Form::Not), Some("Not"));
    assert_eq!(prefix_operation(Form::Complement), Some("BitNot"));
    assert_eq!(prefix_operation(Form::Minus), Some("Min"));
    assert_eq!(prefix_operation(Form::If), None);
    let (code, tp) = negated_presence(&data, Value::Var(1));
    assert_eq!(shown(&code), shown(&call(&data, "OpNot", vec![Value::Var(1)])));
    assert!(matches!(tp, Type::Boolean));
}

#[test]
fn sources_that_name_a_collection_are_told() {
    let data = operators();
    assert!(source_names_a_collection(&data, &Value::Var(1)));
    assert!(source_names_a_collection(&data, &Value::TupleGet(1, 0)));
    assert!(!source_names_a_collection(&data, &Value::Int(1)));
    let vars = frame(vec![var("a", integer()), var("b", integer()), var("c", integer())]);
    let names: Vec<String> = vec!["b".to_string(), "a".to_string(), "x".to_string()];
    let linked = vector_link_partner_vars(&vars, &names, 0);
    assert_eq!(linked, [1]);
}

#[test]
fn a_keyed_collection_at_a_place_is_made_on_its_first_write() {
    let data = operators();
    let mut vars = frame(vec![var("s", integer())]);
    let keyed = Type::Hash(3, "k".to_string(), Deps::none());
    assert!(keyed_place_materialise(&data, &mut vars, &Value::Int(3), 7, &keyed).is_none());
    let field = call(&data, "OpGetField", vec![Value::Var(0), Value::Int(4), Value::Int(7)]);
    assert!(
        keyed_place_materialise(&data, &mut vars, &field, 7, &keyed).is_none(),
        "a field is made in its place"
    );
    let part = Value::TupleGet(0, 1);
    let made = keyed_place_materialise(&data, &mut vars, &part, 7, &keyed).expect("a place");
    let want = Value::If(
        Box::new(call(&data, "OpVectorIsNull", vec![part])),
        Box::new(Value::Insert(vec![
            Value::Assign(1, Box::new(Value::Null)),
            call(&data, "OpDatabase", vec![Value::Var(1), Value::Int(7)]),
            Value::TuplePut(0, 1, Box::new(Value::Var(1))),
        ])),
        Box::new(Value::Null),
    );
    assert_eq!(shown(&made), shown(&want));
}

#[test]
fn the_signature_of_a_short_lambda_comes_from_its_place() {
    let hint = Type::Function(vec![integer()], Box::new(Type::Unknown(0)), Deps::none());
    let names: Vec<String> = vec!["x".to_string()];
    let s = short_signature(&names, &hint, None, false);
    assert!(matches!(s.params[0].tp, Type::Integer(_)));
    assert!(s.unresolved.is_empty());
    assert!(s.returned.is_none());
    assert!(s.infers, "nothing says what it returns");
    let open = short_signature(&names, &Type::Unknown(0), None, false);
    assert_eq!(open.unresolved, ["x"]);
    assert!(!s.refused && !open.refused);
    let written = short_signature(&names, &hint, Some(Type::Boolean), true);
    assert!(written.refused, "a short lambda takes no return type");
    assert!(matches!(written.returned, Some(Type::Boolean)));
    assert!(!written.infers);
}

#[test]
fn a_short_lambda_shows_its_declared_parameters_only() {
    let mut data = operators();
    let lambda = data.definitions.len() as u32;
    let mut def = Definition::new("n___lambda_0", DefType::Function);
    def.attributes.push(attribute("x", Type::Unknown(0)));
    def.attributes.push(attribute("y", Type::Boolean));
    def.attributes.push(attribute("__work_1", text()));
    data.definitions.push(def);
    let names: Vec<String> = vec!["x".to_string(), "y".to_string()];
    let hint = Type::Function(vec![integer()], Box::new(Type::Void), Deps::none());
    settle_params(&mut data, lambda, &infer_params(&names, &hint));
    let shown = published_params(&data, lambda, 2);
    assert_eq!(shown.len(), 2);
    assert_eq!(shown[0].name, "x");
    assert!(matches!(shown[0].tp, Type::Integer(_)), "what the place asks for");
    assert_eq!(shown[1].name, "y");
    assert!(matches!(shown[1].tp, Type::Boolean), "what the definition had");
}

#[test]
fn a_lambda_is_finished_in_both_passes() {
    let mut data = operators();
    let mut test = Definition::new("n_test", DefType::Function);
    test.variables.variables.push(var("n", integer()));
    data.definitions.push(test);
    let parent = data.def_nr("n_test");
    let mut def = Definition::new("n___lambda_0", DefType::Function);
    def.variables.variables.push(var("n", integer()));
    def.code = Value::Assign(0, Box::new(Value::Int(1)));
    let lambda = data.definitions.len() as u32;
    data.definitions.push(def);
    let mut vars = data.def(parent).variables.copy();
    let mut stores = no_types();
    let mut graph: Vec<Lambdas> = Vec::new();
    let (owners, scope, replaced, params) = (vec![], vec![], vec![], vec![]);
    let around = || Around {
        name: "__lambda_0",
        parent,
        param: u16::MAX,
        owners: &owners,
        scope: &scope,
        replaced: &replaced,
        params: &params,
        ret: &Type::Void,
    };
    let mut captured = vec![Capture { name: "n".to_string(), tp: integer() }];
    let mut enclosing = Vec::new();
    let first = parse_lambda(
        &mut data,
        &mut stores,
        &mut vars,
        &mut graph,
        lambda,
        around(),
        &mut captured,
        &mut enclosing,
        true,
    );
    assert_eq!(shown(&first.code), shown(&Value::Int(lambda as i32)));
    assert_eq!(graph.len(), 1);
    assert_eq!(data.def(parent).scalars_to_box, ["n"]);
    assert!(matches!(captured[0].tp, Type::Reference(..)), "the capture is its cell");
    // the second pass: the record is laid out and `n` is in its cell
    let record = data.def(lambda).closure_record;
    data.definitions[record as usize].known_type = 0;
    let mut tp = base("__closure_0", 16);
    tp.fields.push(Field { name: "n".to_string(), position: 4, content: 0 });
    stores.types.push(tp);
    vars.set_type(0, captured[0].tp.copy());
    let second = parse_lambda(
        &mut data,
        &mut stores,
        &mut vars,
        &mut graph,
        lambda,
        around(),
        &mut captured,
        &mut enclosing,
        false,
    );
    assert_eq!(second.work, Some(1));
    assert_eq!(second.captured, [0]);
    assert_eq!(second.tp.depend(), [1]);
    assert!(matches!(second.code, Value::Block(_)), "{:?}", second.code);
    assert_eq!(graph[0].lambdas, [lambda], "noted once");
    assert!(enclosing.is_empty());
}

fn parsed(value: Value, tp: Type) -> Parsed {
    Parsed { value, tp, converted: None, widened: None, wrapped: None, fields: None }
}

#[test]
fn elements_are_added_one_by_one() {
    let data = operators();
    let none: Vec<u16> = vec![];
    let mut res = Vec::new();
    let mut first = parsed(Value::Int(1), integer());
    first.converted = Some(Value::Int(1));
    let a = parse_item(&data, Type::Unknown(0), first, false, false, &none, false, &mut res);
    assert_eq!(a.outcome, Outcome::Converted);
    assert!(matches!(a.in_t, Type::Integer(_)));
    let mut second = parsed(Value::Float(0), Type::Float);
    second.widened = Some(Value::Var(9));
    let b = parse_item(&data, a.in_t, second, false, false, &none, false, &mut res);
    assert_eq!(b.outcome, Outcome::Widened);
    assert!(matches!(b.in_t, Type::Float));
    let c = parse_item(
        &data,
        b.in_t,
        parsed(Value::Text("x".to_string()), text()),
        true,
        false,
        &none,
        false,
        &mut res,
    );
    assert_eq!(c.outcome, Outcome::Refused);
    assert_eq!(
        res.iter().map(shown).collect::<Vec<String>>(),
        ["Int(1)", "Var(9)", "Text(\"x\")"]
    );
    let f = Type::Function(vec![], Box::new(Type::Void), Deps::none());
    let mut capturing = parsed(Value::FnRef(1, 3, Box::new(Type::Void)), f.copy());
    capturing.converted = Some(capturing.value.copy());
    assert!(parse_item(&data, f, capturing, true, false, &none, false, &mut res).capturing);
    assert_eq!(shown(&item_slot(&integer(), false, 4)), "Var(4)");
    assert_eq!(shown(&item_slot(&integer(), true, 4)), "Null");
    let tuple = Type::Rewritten(Box::new(Type::Tuple(vec![integer()])));
    assert_eq!(shown(&item_slot(&tuple, false, 4)), "Null");
}

#[test]
fn a_written_out_variant_carries_its_fields() {
    let data = operators();
    let none: Vec<u16> = vec![];
    let mut res = Vec::new();
    let shape = || Type::Enum(50, true, Deps::none());
    let mut p = parsed(Value::Enum(2, 7), shape());
    p.fields = Some(vec![Value::Line(1)]);
    let r = parse_item(&data, shape(), p, true, false, &none, false, &mut res);
    assert_eq!(r.outcome, Outcome::AsIs);
    assert_eq!(
        shown(&res[0]),
        shown(&Value::Insert(vec![Value::Line(1), Value::Enum(2, 7)]))
    );
}

fn comprehension(val: Value, fill: bool) -> Comprehension {
    Comprehension {
        site: site(val, 0, 1, integer()),
        end: LoopEnd::Generator,
        pre_var: None,
        block: false,
        linked: vec![],
        elem_tp: 5,
        present: u32::MAX,
        fill: if fill { Some(vec![item(Value::Int(5))]) } else { None },
        unrolled: None,
    }
}

#[test]
fn a_comprehension_is_built_by_its_strategy() {
    let data = operators();
    let parts = |body: Value| {
        vec![
            Value::Null,
            Value::Null,
            Value::Assign(2, Box::new(Value::Int(0))),
            Value::Null,
            body,
        ]
    };
    let vars = || {
        frame(vec![
            var("v", vector(integer())),
            var("_elm_1", integer()),
            var("i", integer()),
        ])
    };
    let run = |c: Comprehension, p: Vec<Value>| {
        let mut f = vars();
        let (code, tp) = parse_vector_for(&data, &mut no_types(), &mut f, c, p);
        (code, tp, f)
    };
    let (code, tp, _) = run(comprehension(Value::Var(0), true), parts(Value::Int(5)));
    let new_record = format!("Call({},", data.def_nr("OpNewRecord"));
    let text = format!("{code:?}");
    assert!(text.contains(&new_record), "{text}");
    assert!(!text.contains("Loop("), "one element that is repeated: {text}");
    assert!(matches!(tp, Type::Vector(..)));
    let (code, _, _) = run(comprehension(Value::Var(0), false), parts(Value::Int(5)));
    assert!(format!("{code:?}").contains("Loop("));
    // v += [for … { v … }] reads what it appends to
    let mut c = comprehension(Value::Var(0), true);
    c.site.assignment.replaces = false;
    let (code, _, f) = run(c, parts(Value::Var(0)));
    assert!(f.variables.len() > 4, "a vector and an element of its own");
    match code {
        Some(Value::Block(b)) => assert_eq!(b.name, "Vector comprehension"),
        other => panic!("{other:?}"),
    }
    let mut c = comprehension(Value::Var(0), false);
    c.site.first_pass = true;
    let (code, _, _) = run(c, parts(Value::Int(5)));
    assert!(code.is_none());
}

#[test]
fn a_loop_over_text_ends_by_the_text_it_reads() {
    let data = operators();
    let read = |v: u16| call(&data, "OpGetText", vec![Value::Var(v)]);
    let parts = || {
        vec![
            Value::Null,
            Value::Null,
            Value::Assign(2, Box::new(read(0))),
            Value::Null,
            Value::Int(7),
        ]
    };
    let run = |end: LoopEnd| {
        let mut f = frame(vec![
            var("v", vector(integer())),
            var("_elm_1", integer()),
            var("c", integer()),
        ]);
        let mut c = comprehension(Value::Var(0), false);
        c.end = end;
        let (code, _) = parse_vector_for(&data, &mut no_types(), &mut f, c, parts());
        let copy = f
            .variables
            .iter()
            .position(|v| v.name.starts_with("_build_src_"))
            .expect("a copy of what the loop reads");
        (format!("{code:?}"), copy as u16)
    };
    let left = |v: u16| call(&data, "OpEqBool", vec![read(v)]);
    let (code, copy) = run(LoopEnd::Position(vec![left(0)]));
    assert!(code.contains(&shown(&Value::Assign(2, Box::new(read(copy))))), "{code}");
    assert!(code.contains(&shown(&left(copy))), "the end reads the copy: {code}");
    assert!(!code.contains(&shown(&left(0))), "{code}");
    let (code, _) = run(LoopEnd::Length(vec![left(0)]));
    assert!(code.contains(&shown(&left(0))), "{code}");
}

#[test]
fn a_member_that_may_be_absent_is_wrapped_in_the_second_pass() {
    let mut data = operators();
    let mut pair = Definition::new("__tuple<S?>", DefType::Struct);
    pair.attributes.push(attribute("_0", integer()));
    data.definitions.push(pair);
    let record = data.def_nr("__tuple<S?>");
    let in_t = Type::Tuple(vec![integer()]);
    let run = |first_pass: bool| {
        let member = Item {
            value: Value::Tuple(vec![Value::Int(1)]),
            fresh: false,
            null: false,
            wraps: vec![Some(vec![Value::Line(77)])],
        };
        let mut vars = frame(vec![var("v", vector(in_t.copy())), var("e", integer())]);
        let steps = new_record(
            &data, &mut no_types(), &mut vars, &Value::Var(0), &Type::Null, &None, 1, 0,
            &vec![member], &in_t, record, first_pass,
        );
        format!("{steps:?}").contains("Line(77)")
    };
    assert!(run(false));
    assert!(!run(true));
}

#[test]
fn a_body_is_expected_to_be_what_the_vector_may_miss() {
    let mut data = operators();
    data.definitions.push(Definition::new("__nullable<S>", DefType::Enum));
    data.definitions.push(Definition::new("Shape", DefType::Enum));
    let tagged = |name: &str, fields: bool| Type::Enum(data.def_nr(name), fields, Deps::none());
    let shown_type = |t: &Type| format!("{t:?}");
    let absent = tagged("__nullable<S>", true);
    assert_eq!(shown_type(&body_expected(&data, &absent)), shown_type(&absent));
    for t in [tagged("__nullable<S>", false), tagged("Shape", true), integer()] {
        assert!(matches!(body_expected(&data, &t), Type::Unknown(0)), "{t:?}");
    }
}

fn place(val: Value, dest: Type, expected: Type) -> Place {
    Place {
        val,
        dest,
        expected,
        hint: Type::Unknown(0),
        receiver_enum: false,
        dest_enum: false,
        expected_enum: false,
        dest_text: u32::MAX,
        expected_text: 9,
        in_hole: false,
        paren: false,
        empty: false,
        tuple: false,
    }
}

#[test]
fn an_operand_is_read_by_its_first_token() {
    let data = operators();
    let none: Vec<ChainTarget> = vec![];
    let step = |t: Token, p: &Place, first: bool| {
        format!("{:?}", single_step(&data, &none, 4, p, &t, first))
    };
    let word = |w: &str| Token::Word(w.to_string());
    let want = |s: Step| format!("{s:?}");
    let bare = place(Value::Null, Type::Unknown(0), Type::Unknown(0));
    let mut paren = place(Value::Null, Type::Unknown(0), Type::Unknown(0));
    paren.paren = true;
    assert_eq!(
        step(word("debug_assert"), &paren, false),
        want(Step::Refused { tell: true, arguments: true })
    );
    assert_eq!(
        step(word("debug_assert"), &bare, true),
        want(Step::Refused { tell: false, arguments: false })
    );
    assert_eq!(step(word("!"), &bare, false), want(Step::Operand(Form::Not)));
    assert_eq!(step(word("-"), &bare, false), want(Step::Operand(Form::Minus)));
    assert_eq!(step(word("~"), &bare, false), want(Step::Operand(Form::Complement)));
    assert_eq!(step(word("{"), &bare, false), want(Step::Block));
    assert_eq!(step(word("if"), &bare, false), want(Step::If));
    assert_eq!(step(word("match"), &bare, false), want(Step::Match));
    assert_eq!(step(word("fn"), &paren, false), want(Step::Lambda));
    assert_eq!(step(word("fn"), &bare, false), want(Step::FnName));
    assert_eq!(step(word("||"), &bare, false), want(Step::ShortLambda(false)));
    assert_eq!(step(word("|"), &bare, false), want(Step::ShortLambda(true)));
    assert_eq!(step(word("sizeof"), &bare, false), want(Step::Size));
    assert_eq!(step(word("type_name"), &bare, false), want(Step::TypeName));
    assert_eq!(step(word("assert"), &bare, false), want(Step::Intrinsic("assert")));
    assert_eq!(step(word("panic"), &bare, false), want(Step::Intrinsic("panic")));
    assert_eq!(step(word("$"), &bare, false), want(Step::Current));
    assert_eq!(step(word("while"), &bare, false), want(Step::Missing));
    assert_eq!(step(Token::Other, &bare, false), want(Step::Missing));
    assert_eq!(
        step(word("true"), &bare, false),
        want(Step::Literal(Value::Boolean(true), Type::Boolean))
    );
    assert_eq!(
        step(Token::Float(3), &bare, false),
        want(Step::Literal(Value::Float(3), Type::Float))
    );
    assert_eq!(step(Token::Text, &bare, false), want(Step::Text(9)));
    let mut hole = place(Value::Null, Type::Unknown(0), Type::Unknown(0));
    hole.in_hole = true;
    hole.dest_enum = true;
    assert_eq!(step(Token::Text, &hole, false), want(Step::Text(u32::MAX)));
    assert_eq!(step(Token::Name, &hole, false), want(Step::Name(VariantsOf::Destination)));
    let takes = Type::Function(vec![integer()], Box::new(integer()), Deps::none());
    let mut tuple = place(Value::Var(3), Type::Tuple(vec![takes.copy()]), Type::Unknown(0));
    tuple.tuple = true;
    assert_eq!(
        step(word("("), &tuple, false),
        want(Step::Members { apart: true, aside: true, hint: Some(takes) })
    );
    assert_eq!(
        step(word("("), &bare, false),
        want(Step::Members { apart: false, aside: false, hint: None })
    );
}

#[test]
fn an_operand_comes_to_what_was_read() {
    let data = operators();
    let p = place(Value::Var(0), Type::Unknown(0), Type::Unknown(0));
    let run = |step: Step, read: Read, first: bool| {
        let mut vars = frame(vec![var("v", vector(integer()))]);
        let mut known: Vec<ChainTarget> = vec![];
        let (r, notice) = parse_single(
            &data, &mut no_types(), &mut vars, &mut known, 4, &p, step, read, first,
        );
        (format!("{r:?}"), notice, known)
    };
    let want = |v: Value, t: Type| format!("{:?}", Single::Value(v, t));
    let (r, notice, _) =
        run(Step::Refused { tell: true, arguments: false }, Read::Nothing, false);
    assert_eq!((r, notice), (want(Value::Var(0), Type::Void), Some(Notice::Reserved)));
    let (r, notice, _) = run(Step::Missing, Read::Nothing, false);
    assert_eq!((r, notice), (want(Value::Var(0), Type::Unknown(0)), None));
    let operand = |present: Option<Value>| Read::Operand {
        value: Value::Var(0),
        tp: integer(),
        present,
        not_null: false,
        power_follows: true,
    };
    let (r, notice, _) = run(Step::Operand(Form::Minus), operand(None), false);
    assert_eq!(r, format!("{:?}", Single::Operation("Min", Value::Var(0), integer())));
    assert_eq!(notice, Some(Notice::Warned(Warning::MinusBindsTighter)));
    let (r, notice, _) = run(Step::Operand(Form::Not), operand(Some(Value::Var(5))), false);
    assert_eq!(r, want(call(&data, "OpNot", vec![Value::Var(5)]), Type::Boolean));
    assert_eq!(notice, None);
    let members = |comma: bool| Read::Members {
        values: vec![Value::Int(1)],
        tps: vec![integer()],
        comma,
        target: false,
        method_follows: false,
    };
    let step = || Step::Members { apart: false, aside: false, hint: None };
    let (r, notice, _) = run(step(), members(false), false);
    assert_eq!((r, notice), (want(Value::Int(1), integer()), None));
    let (r, notice, _) = run(step(), members(true), false);
    assert_eq!(r, want(Value::Tuple(vec![Value::Int(1)]), Type::Tuple(vec![integer()])));
    assert_eq!(notice, Some(Notice::TooShort));
    let (r, notice, _) = run(Step::FnName, Read::Whole(Value::Int(6), integer()), false);
    assert_eq!((r, notice), (want(Value::Int(6), integer()), Some(Notice::FnPrefix)));
    let (r, notice, _) = run(Step::If, Read::Whole(Value::Int(6), integer()), false);
    assert_eq!((r, notice), (want(Value::Int(6), integer()), None));
    let none: Vec<ChainTarget> = vec![];
    let at = single_step(&data, &none, 4, &p, &Token::Word("[".to_string()), false);
    let read = Read::Elements { value: Value::Var(0), tp: vector(integer()), method_follows: true };
    let (r, _, known) = run(at, read, false);
    assert!(r.contains("Block"), "{r}");
    assert_eq!(known, [ChainTarget { context: 4, var: 0 }]);
}

#[test]
fn a_vector_of_vectors_goes_by_its_elements() {
    let data = operators();
    let mut stores = Stores { types: vec![base("integer", 8), base("boolean", 1)] };
    let inner = vector_of(&mut stores, &data, &Type::Boolean);
    assert_eq!(stores.content(inner), 1);
    assert_eq!(vector_element_type(&mut stores, &data, &vector(Type::Boolean)), inner);
    assert_eq!(vector_of(&mut stores, &data, &vector(Type::Boolean)), inner);
    assert_eq!(vector_element_type(&mut stores, &data, &Type::Boolean), 1);
}

#[test]
fn a_tuple_in_a_tuple_is_held_as_a_view_of_its_source() {
    let data = operators();
    let mut stores = Stores { types: vec![base("text", 4)] };
    let pair = Type::Tuple(vec![vector(text()), integer()]);
    let mut vars = frame(vec![var("p", pair.copy())]);
    let made = tuple_member_owned_copy(&data, &mut stores, &mut vars, &Value::Var(0), &pair, false);
    assert!(made.is_some());
    match vars.tp(1) {
        Type::Tuple(ts) => {
            assert_eq!(ts[0].depend(), [0], "it never releases what it shows");
            assert!(ts[1].depend().is_empty());
        }
        other => panic!("{other:?}"),
    }
    match made.unwrap().1 {
        Type::Tuple(ts) => assert_eq!(ts[0].depend(), [2], "the copy is its own"),
        other => panic!("{other:?}"),
    }
}

#[test]
fn a_literal_gets_a_variable_where_it_has_none() {
    let mut data = operators();
    data.definitions.push(Definition::new("K", DefType::Struct));
    let d = data.def_nr("K");
    let parent = vector(integer());

    let mut vars = frame(vec![var("v", vector(integer()))]);
    let own = open_literal(&data, &mut vars, &vector(integer()), &Value::Var(0), &parent, 9, 8);
    assert_eq!((own.vec, own.elm), (0, 1));
    assert!(own.is_var && !own.is_field && !own.block);
    assert!(!vars.variables[1].skip_free);

    let mut vars = frame(vec![]);
    let value = open_literal(&data, &mut vars, &vector(integer()), &Value::Null, &parent, 9, 8);
    assert_eq!((value.vec, value.elm), (0, 1));
    assert!(value.block);
    assert_eq!(vars.name(0), "_vec_1");
    assert!(matches!(vars.tp(0), Type::Vector(_, _)));

    let mut vars = frame(vec![var("b", integer())]);
    let hash = Type::Hash(d, "k".to_string(), Deps::frame1(0));
    let keyed = open_literal(&data, &mut vars, &hash, &Value::Null, &parent, 9, 8);
    assert_eq!(vars.name(keyed.vec), "__kvb_1");
    assert!(vars.variables[keyed.vec as usize].work_ref);
    assert!(vars.tp(keyed.vec).depend().is_empty(), "the storage is its own");

    let mut vars = frame(vec![var("s", integer())]);
    let field = call(&data, "OpGetField", vec![Value::Var(0), Value::Int(4), Value::Int(7)]);
    let in_field = open_literal(&data, &mut vars, &vector(integer()), &field, &parent, 9, 8);
    assert_eq!(in_field.vec, u16::MAX);
    assert!(in_field.is_field && !in_field.block);
    assert!(vars.variables[in_field.elm as usize].skip_free);
}

#[test]
fn a_comprehension_iterates_a_vector_through_its_own_variable() {
    let mut vars = frame(vec![var("xs", vector(integer()))]);
    let (fill, source, tp) = comprehension_source(&mut vars, vector(integer()), Value::Var(0));
    assert_eq!(shown(&fill), shown(&Value::Assign(1, Box::new(Value::Var(0)))));
    assert_eq!(shown(&source), shown(&Value::Var(1)));
    assert_eq!(tp.depend(), [1]);
    assert!(vars.variables[1].iteration_source);
    let (fill, source, _) = comprehension_source(&mut vars, text(), Value::Var(0));
    assert_eq!(shown(&fill), shown(&Value::Null));
    assert_eq!(shown(&source), shown(&Value::Var(0)));
    assert_eq!(vars.variables.len(), 2);
}

#[test]
fn a_loop_over_text_counts_twice() {
    let mut vars = frame(vec![]);
    assert_eq!(comprehension_counters(&mut vars, "c", &text(), &integer()), (0, Some(1)));
    assert_eq!(vars.name(0), "c#next");
    assert_eq!(vars.name(1), "c#index");
    assert!(vars.variables[0].defined && vars.variables[1].defined);
    assert_eq!(comprehension_counters(&mut vars, "c", &integer(), &integer()), (1, None));
    assert_eq!(comprehension_counters(&mut vars, "i", &integer(), &integer()), (2, None));
    assert_eq!(vars.name(2), "i#index");
}

#[test]
fn a_literal_with_methods_is_known_in_the_next_pass() {
    let mut known = Vec::new();
    assert!(!known_receiver(&known, 4, &Value::Var(2)));
    note_receiver(&mut known, 4, 2);
    note_receiver(&mut known, 4, 2);
    assert_eq!(known.len(), 1);
    assert!(known_receiver(&known, 4, &Value::Var(2)));
    assert!(!known_receiver(&known, 5, &Value::Var(2)), "of another function");
    assert!(!known_receiver(&known, 4, &Value::Null), "no variable takes it");
}

#[test]
fn the_first_member_of_a_tuple_is_not_the_whole() {
    assert!(first_member_apart(&Value::Var(0), true));
    assert!(!first_member_apart(&Value::Var(0), false));
    assert!(!first_member_apart(&Value::Null, true));
}

#[test]
fn a_bare_name_and_a_string_look_at_their_place() {
    assert_eq!(variants_of(true, true, true), VariantsOf::Receiver);
    assert_eq!(variants_of(false, true, true), VariantsOf::Destination);
    assert_eq!(variants_of(false, false, true), VariantsOf::Expected);
    assert_eq!(variants_of(false, false, false), VariantsOf::Receiver);
    assert_eq!(string_target(3, 4, true), 3);
    assert_eq!(string_target(u32::MAX, 4, false), 4);
    assert_eq!(string_target(u32::MAX, 4, true), u32::MAX, "a hole is not the destination");
}

#[test]
fn both_forms_of_a_lambda_resolve_their_captures_first() {
    let fixture = || {
        let mut data = operators();
        let mut record = Definition::new("__closure_0", DefType::Struct);
        record.attributes.push(attribute("late", Type::Unknown(0)));
        data.definitions.push(record);
        let mut lambda = Definition::new("n___lambda_0", DefType::Function);
        lambda.attributes.push(attribute("x", Type::Unknown(0)));
        lambda.closure_record = data.def_nr("__closure_0");
        data.definitions.push(lambda);
        let nr = data.def_nr("n___lambda_0");
        (data, nr)
    };
    let scope = vec![Capture { name: "late".to_string(), tp: integer() }];
    let hint = Type::Function(vec![integer()], Box::new(Type::Void), Deps::none());
    let names: Vec<String> = vec!["x".to_string()];

    let (mut short, nr) = fixture();
    let mut vars = frame(vec![argument("x", Type::Unknown(0))]);
    let (signature, begun) =
        parse_lambda_short(&mut short, &mut vars, nr, &names, &hint, None, &scope, false);
    assert!(signature.unresolved.is_empty());
    assert!(begun.lay_out);
    assert_eq!(begun.param, Some(1));
    assert_eq!(vars.name(1), "__closure");
    let record = short.def(nr).closure_record;
    assert!(matches!(short.def(record).attributes[0].typedef, Type::Integer(_)));
    assert!(matches!(short.def(nr).attributes[0].typedef, Type::Integer(_)));
    assert_eq!(short.def(nr).attributes[1].name, "__closure");

    let (mut long, nr) = fixture();
    let mut vars = frame(vec![argument("x", Type::Unknown(0))]);
    let params = vec![Capture { name: "x".to_string(), tp: integer() }];
    let begun = begin_lambda(&mut long, &mut vars, nr, &params, &scope, false);
    assert!(begun.lay_out);
    assert_eq!(
        format!("{:?}", long.def(record).attributes),
        format!("{:?}", short.def(record).attributes),
        "the two forms capture alike"
    );
    let mut vars = frame(vec![]);
    let first = begin_lambda(&mut long, &mut vars, nr, &params, &scope, true);
    assert!(!first.lay_out && first.param.is_none());
    assert_eq!(vars.variables.len(), 1);
}

#[test]
fn a_loop_ends_by_what_it_goes_over() {
    let steps = |n: i32| vec![Value::Int(n)];
    let end = |tp: &Type, pre: Option<u16>, length: bool| {
        let by_length = if length { Some(steps(2)) } else { None };
        format!("{:?}", loop_end(tp, pre, steps(1), by_length, Value::Var(0)))
    };
    let want = |end: LoopEnd| format!("{end:?}");
    assert_eq!(end(&text(), Some(4), true), want(LoopEnd::Position(steps(1))));
    assert_eq!(end(&vector(integer()), None, true), want(LoopEnd::Length(steps(2))));
    assert_eq!(end(&Type::Iterator(Box::new(integer())), None, false), want(LoopEnd::Generator));
    assert_eq!(end(&integer(), None, false), want(LoopEnd::Test(Value::Var(0))));
}

fn looped(first_pass: bool) -> Comprehension {
    Comprehension {
        site: LiteralSite {
            val: Value::Var(0),
            parent: Type::Null,
            owner: None,
            elm: 1,
            vec: 0,
            in_t: integer(),
            record: u32::MAX,
            first_pass,
            is_var: true,
            is_field: false,
            unresolved: false,
            assignment: Assignment { target: 0, replaces: true },
            holder: holder(),
        },
        end: LoopEnd::Generator,
        pre_var: None,
        block: false,
        linked: vec![],
        elem_tp: 0,
        present: 0,
        fill: None,
        unrolled: None,
    }
}

fn folded(bounds: Option<(i32, i32)>, values: Vec<Option<Value>>) -> Folded {
    let filters = values.iter().map(|_| None).collect();
    Folded {
        range: false,
        folded: None,
        from_zero: true,
        till: Value::Null,
        difference: Value::Null,
        bounds,
        filters,
        values,
    }
}

#[test]
fn a_comprehension_folds_what_is_constant_and_refuses_what_cannot_be_iterated() {
    let data = operators();
    let parts = |next: Value| {
        vec![Value::Null, Value::Null, Value::Assign(2, Box::new(next)), Value::Null, Value::Int(7)]
    };
    let fresh = || {
        frame(vec![
            var("v", vector(integer())),
            var("e", integer()),
            var("i", integer()),
            var("__vdb_1", integer()),
        ])
    };
    let mut stores = no_types();
    let mut vars = fresh();
    let none = folded(None, vec![]);
    let c = looped(false);
    assert!(comprehend(&data, &mut stores, &mut vars, c, none, parts(Value::Null)).is_none());
    let none = folded(None, vec![]);
    let c = looped(true);
    let (code, tp) =
        comprehend(&data, &mut stores, &mut vars, c, none, parts(Value::Null)).expect("deferred");
    assert!(code.is_none());
    assert!(matches!(tp, Type::Vector(_, _)));
    let known = folded(Some((0, 2)), vec![Some(Value::Int(10)), Some(Value::Int(11))]);
    let mut vars = fresh();
    let (code, _) =
        comprehend(&data, &mut stores, &mut vars, looped(false), known, parts(Value::Int(1)))
            .expect("it can be iterated");
    let shown = shown(&code.expect("the second pass builds"));
    assert!(!shown.contains("Loop"), "the elements are known: {shown}");
    let open = folded(Some((0, 2)), vec![None, None]);
    let mut vars = fresh();
    let (code, _) =
        comprehend(&data, &mut stores, &mut vars, looped(false), open, parts(Value::Int(1)))
            .expect("it can be iterated");
    assert!(format!("{:?}", code.unwrap()).contains("Loop"));
}

fn bracket(tp: Type, val: Value) -> Bracket {
    Bracket {
        tp,
        val,
        parent: Type::Null,
        owner: None,
        content: 0,
        record: u32::MAX,
        present: 0,
        assignment: Assignment { target: 0, replaces: true },
        holder: holder(),
        origin: None,
        linked: vec![],
        elem_tp: 0,
        holding: vec![],
        first_pass: false,
    }
}

fn element(value: Value, tp: Type) -> Part {
    Part::Element(Element {
        parsed: Parsed {
            converted: Some(value.copy()),
            value,
            tp,
            widened: None,
            wrapped: None,
            fields: None,
        },
        found: false,
        fresh: false,
        null: false,
        wraps: vec![],
    })
}

#[test]
fn a_bracketed_literal_is_read_as_a_whole() {
    let data = operators();
    let mut stores = no_types();
    let mut vars = frame(vec![var("v", vector(integer()))]);
    let b = bracket(vector(integer()), Value::Var(0));
    let (l, notes) = bracketed(&data, &mut stores, &mut vars, b, vec![]);
    assert!(matches!(l, Whole::Empty(_, Type::Rewritten(_))));
    assert!(notes.is_empty());
    assert_eq!(vars.variables.len(), 1, "nothing is built");

    let b = bracket(vector(integer()), Value::Var(0));
    let parts = vec![element(Value::Int(1), integer()), Part::Times(Value::Int(3), text())];
    let (l, _) = bracketed(&data, &mut stores, &mut vars, b, parts);
    assert!(matches!(l, Whole::BadRepeat));

    let mut vars = frame(vec![var("v", vector(integer()))]);
    let b = bracket(vector(integer()), Value::Var(0));
    let parts = vec![element(Value::Int(1), integer()), Part::Times(Value::Int(3), integer())];
    let (l, notes) = bracketed(&data, &mut stores, &mut vars, b, parts);
    assert_eq!(notes.len(), 1);
    assert_eq!(notes[0].outcome, Outcome::Converted);
    assert!(!notes[0].capturing);
    match l {
        Whole::Built(done) => assert!(matches!(done.tp, Type::Vector(_, _))),
        _ => panic!("the literal is built"),
    }
    let b = bracket(Type::Unknown(0), Value::Null);
    let keyed = Type::Hash(0, "k".to_string(), Deps::none());
    let (l, _) = bracketed(&data, &mut stores, &mut vars, b, vec![element(Value::Int(1), keyed)]);
    assert!(matches!(l, Whole::Keyed("hash")));
    let b = bracket(Type::Unknown(0), Value::Null);
    let absent = vec![element(Value::Null, Type::Null)];
    let (l, _) = bracketed(&data, &mut stores, &mut vars, b, absent);
    assert!(matches!(l, Whole::Untyped));
}

#[test]
fn elements_without_a_type_are_refused_once_that_is_final() {
    let data = operators();
    let mut stores = no_types();
    let mut vars = frame(vec![var("v", vector(integer())), var("e", integer())]);
    let none: Vec<Item> = vec![];
    let mut shape = |tp: &Type, record: u32, first_pass: bool| {
        add_records(
            &data, &mut stores, &mut vars, &Value::Var(0), &Type::Null, u16::MAX, 1, 0, &none, tp,
            record, first_pass,
        )
        .1
    };
    assert_eq!(shape(&integer(), 0, false), Shape::Known);
    assert_eq!(shape(&Type::Unknown(0), u32::MAX, true), Shape::Open);
    assert_eq!(shape(&Type::Unknown(0), u32::MAX, false), Shape::Never);
    assert_eq!(shape(&integer(), u32::MAX, true), Shape::Never);
}

#[test]
fn a_prefix_applies_to_its_operand_alone() {
    let data = operators();
    let apply = |form: Form, present: Option<Value>, power: bool| {
        apply_prefix(&data, form, Value::Var(3), &integer(), present, true, power, false)
    };
    match apply(Form::Minus, None, true) {
        Some((Prefixed::Operation("Min", x), Some(Warning::MinusBindsTighter))) => {
            assert_eq!(shown(&x), shown(&Value::Var(3)));
        }
        _ => panic!("a sign"),
    }
    assert!(matches!(apply(Form::Minus, None, false), Some((_, None))));
    assert!(matches!(
        apply(Form::Not, None, false),
        Some((Prefixed::Operation("Not", _), Some(Warning::RedundantNegation)))
    ));
    match apply(Form::Not, Some(Value::Boolean(true)), false) {
        Some((Prefixed::Absence(x), _)) => {
            assert_eq!(shown(&x), shown(&call(&data, "OpNot", vec![Value::Boolean(true)])));
        }
        _ => panic!("a test for absence"),
    }
    assert!(apply(Form::Block, None, false).is_none());
}

#[test]
fn a_literal_with_methods_leaves_its_variable() {
    let mut known = vec![];
    let place = |known: &Vec<_>| {
        literal_place(
            known, 4, &Value::Var(0), &vector(integer()), &Type::Unknown(0), &Type::Unknown(0), false,
        )
    };
    let first = place(&known);
    assert_eq!(first.lhs, Some(0));
    let mut vars = frame(vec![var("v", vector(integer()))]);
    let (code, _) =
        literal_done(&mut vars, &mut known, 4, first.lhs, Value::Var(0), first.tp, true);
    assert!(matches!(code, Value::Block(_)));
    assert!(matches!(vars.tp(0), Type::Unknown(0)), "free for what the methods answer");
    let next = place(&known);
    assert_eq!(next.lhs, None);
    assert!(matches!(next.tp, Type::Unknown(0)));
    assert_eq!(shown(&next.val), shown(&Value::Null));
}

#[test]
fn a_tuple_has_two_members() {
    let data = operators();
    let mut stores = no_types();
    let mut vars = frame(vec![]);
    let mut of = |n: usize, comma: bool| {
        let values = (0..n).map(|i| Value::Int(i as i32)).collect();
        let ts = (0..n).map(|_| integer()).collect();
        parenthesised(&data, &mut stores, &mut vars, values, ts, comma, false, false, false)
    };
    assert!(of(1, true).too_short);
    let pair = of(2, true);
    assert!(!pair.too_short);
    assert!(matches!(pair.value, Value::Tuple(_)));
    let plain = of(1, false);
    assert!(!plain.too_short && !plain.misses_value);
    assert_eq!(shown(&plain.value), shown(&Value::Int(0)));
}
