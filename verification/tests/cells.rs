//! Reading and writing scalars in their cells.

use loft::cells::{
    auto_deref_boxed_scalar, boxed_scalar_assign_rewrite, cell_struct_name, change_var_type,
    maybe_prepend_cell_alloc,
};
use loft::data::{Attribute, Data, DefType, Definition, Function, Variable};
use loft::ir::Value;
use loft::types::{Deps, IntegerSpec, Type};

const OPERATORS: [&str; 16] = [
    "OpGetInt", "OpSetInt", "OpGetText", "OpSetText", "OpGetFloat", "OpSetFloat", "OpGetCharacter",
    "OpSetCharacter", "OpGetBoolean", "OpSetBoolean", "OpDatabase", "OpGetByte", "OpSetByte",
    "OpGetSingle", "OpSetSingle", "OpEqInt",
];

fn integer() -> Type {
    Type::Integer(IntegerSpec::signed32())
}

fn operators() -> Data {
    let mut data = Data { definitions: Vec::new() };
    for name in OPERATORS {
        data.definitions.push(Definition::new(name, DefType::Function));
    }
    data
}

fn with_cell(value_tp: &Type, cell_name: &str) -> (Data, u32) {
    let mut data = operators();
    let mut cell = Definition::new(cell_name, DefType::Struct);
    cell.known_type = 77;
    cell.attributes.push(Attribute {
        name: "value".to_string(),
        typedef: value_tp.copy(),
        hidden: false,
        nullable: false,
        work_buffer: false,
    });
    data.definitions.push(cell);
    let d = data.def_nr(cell_name);
    (data, d)
}

fn with_boxed_local(value_tp: &Type, cell_name: &str, var: &str) -> (Data, Function, u32, u16) {
    let (data, cell) = with_cell(value_tp, cell_name);
    let mut vars = Function::new();
    let v = vars.add_variable(Variable::plain(
        var.to_string(),
        Type::Reference(cell, Deps::none()),
    ));
    (data, vars, cell, v)
}

fn shown(v: &Value) -> String {
    format!("{v:?}")
}

#[test]
fn integer_cell_wraps_with_op_get_int() {
    let (data, cell) = with_cell(&integer(), "__cell_integer");
    let (code, new_t) =
        auto_deref_boxed_scalar(&data, Value::Var(7), Type::Reference(cell, Deps::none()));
    let op = data.def_nr("OpGetInt");
    match &code {
        Value::Call(d, args) => {
            assert_eq!(*d, op, "expected OpGetInt; got d_nr={d}");
            assert_eq!(args.len(), 2);
            assert!(matches!(args[0], Value::Var(7)));
            assert!(matches!(args[1], Value::Int(0)));
        }
        other => panic!("expected Call(OpGetInt, …); got {other:?}"),
    }
    assert!(
        matches!(new_t, Type::Integer(_)),
        "expected Integer return type; got {new_t:?}"
    );
}

#[test]
fn text_cell_wraps_with_op_get_text() {
    let (data, cell) = with_cell(&Type::Text(Deps::none()), "__cell_text");
    let (code, new_t) =
        auto_deref_boxed_scalar(&data, Value::Var(3), Type::Reference(cell, Deps::none()));
    match &code {
        Value::Call(d, args) => {
            assert_eq!(*d, data.def_nr("OpGetText"));
            assert_eq!(args.len(), 2);
        }
        other => panic!("expected Call(OpGetText, …); got {other:?}"),
    }
    assert!(matches!(new_t, Type::Text(_)));
}

#[test]
fn boolean_cell_wraps_byte_then_eq() {
    let (data, cell) = with_cell(&Type::Boolean, "__cell_boolean");
    let (code, new_t) =
        auto_deref_boxed_scalar(&data, Value::Var(5), Type::Reference(cell, Deps::none()));
    match &code {
        Value::Call(d, args) => {
            assert_eq!(
                *d,
                data.def_nr("OpGetBoolean"),
                "boolean cell read should be OpGetBoolean"
            );
            assert_eq!(args.len(), 2);
        }
        other => panic!("expected Call(OpGetBoolean, …); got {other:?}"),
    }
    assert!(matches!(new_t, Type::Boolean));
}

#[test]
fn float_cell_wraps_with_op_get_float() {
    let (data, cell) = with_cell(&Type::Float, "__cell_float");
    let (code, new_t) =
        auto_deref_boxed_scalar(&data, Value::Var(2), Type::Reference(cell, Deps::none()));
    if let Value::Call(d, _) = &code {
        assert_eq!(*d, data.def_nr("OpGetFloat"));
    } else {
        panic!("expected Call(OpGetFloat, …); got {code:?}");
    }
    assert!(matches!(new_t, Type::Float));
}

#[test]
fn character_cell_wraps_with_op_get_character() {
    let (data, cell) = with_cell(&Type::Character, "__cell_character");
    let (code, new_t) =
        auto_deref_boxed_scalar(&data, Value::Var(4), Type::Reference(cell, Deps::none()));
    if let Value::Call(d, _) = &code {
        assert_eq!(*d, data.def_nr("OpGetCharacter"));
    } else {
        panic!("expected Call(OpGetCharacter, …); got {code:?}");
    }
    assert!(matches!(new_t, Type::Character));
}

#[test]
fn non_cell_reference_returns_unchanged() {
    let mut data = operators();
    data.definitions.push(Definition::new("MyStruct", DefType::Struct));
    let s = data.def_nr("MyStruct");
    let (code, new_t) =
        auto_deref_boxed_scalar(&data, Value::Var(1), Type::Reference(s, Deps::none()));
    assert_eq!(
        shown(&code),
        shown(&Value::Var(1)),
        "non-cell Reference must not be wrapped"
    );
    assert!(
        matches!(new_t, Type::Reference(_, _)),
        "non-cell Reference type must pass through unchanged; got {new_t:?}"
    );
}

#[test]
fn non_reference_type_returns_unchanged() {
    let data = operators();
    let (code, new_t) = auto_deref_boxed_scalar(&data, Value::Int(42), integer());
    assert_eq!(
        shown(&code),
        shown(&Value::Int(42)),
        "Integer input must not be wrapped"
    );
    assert!(matches!(new_t, Type::Integer(_)));
}

#[test]
fn parse_var_path_no_op_for_non_cell_locals() {
    // fn test() { n = 42; _ = n + 1; }
    let data = operators();
    let mut vars = Function::new();
    let n = vars.add_variable(Variable::plain("n".to_string(), integer()));
    change_var_type(&data, &mut vars, n, &integer());
    let (code, tp) = auto_deref_boxed_scalar(&data, Value::Var(n), vars.tp(n).copy());
    assert_eq!(shown(&code), shown(&Value::Var(n)));
    assert!(
        matches!(tp, Type::Integer(_)),
        "non-boxed `n` must stay Integer; got {tp:?}"
    );
    let found_n = vars.var("n");
    assert!(found_n == n, "`n` not found in vars table");
    assert!(matches!(vars.tp(found_n), Type::Integer(_)));
}

#[test]
fn first_set_integer_emits_alloc_and_fill() {
    let (data, vars, cell, v) = with_boxed_local(&integer(), "__cell_integer", "n");
    let ir = boxed_scalar_assign_rewrite(&data, &vars, v, "=", Value::Int(42))
        .expect("expected rewrite IR");
    let op_db = data.def_nr("OpDatabase");
    let op_set = data.def_nr("OpSetInt");
    let cell_kt = i32::from(data.def(cell).known_type);
    let Value::Insert(ops) = ir else {
        panic!("expected Insert");
    };
    assert_eq!(ops.len(), 3);
    match &ops[0] {
        Value::Assign(set_v, val) => {
            assert_eq!(*set_v, v);
            assert!(matches!(**val, Value::Null));
        }
        other => panic!("op[0] should be Set(n, Null); got {other:?}"),
    }
    match &ops[1] {
        Value::Call(d, args) => {
            assert_eq!(*d, op_db);
            assert_eq!(args.len(), 2);
            assert!(matches!(args[0], Value::Var(x) if x == v));
            assert!(matches!(args[1], Value::Int(kt) if kt == cell_kt));
        }
        other => panic!("op[1] should be OpDatabase(n, kt); got {other:?}"),
    }
    match &ops[2] {
        Value::Call(d, args) => {
            assert_eq!(*d, op_set);
            assert_eq!(args.len(), 3);
            assert!(matches!(args[0], Value::Var(x) if x == v));
            assert!(matches!(args[1], Value::Int(0)));
            assert!(matches!(args[2], Value::Int(42)));
        }
        other => panic!("op[2] should be OpSetInt(n, 0, 42); got {other:?}"),
    }
}

#[test]
fn subsequent_set_integer_emits_field_write_only() {
    let (data, mut vars, _cell, v) = with_boxed_local(&integer(), "__cell_integer", "n");
    vars.mark_defined(v);
    let ir = boxed_scalar_assign_rewrite(&data, &vars, v, "=", Value::Int(7))
        .expect("expected rewrite IR");
    match ir {
        Value::Call(d, args) => {
            assert_eq!(d, data.def_nr("OpSetInt"));
            assert_eq!(args.len(), 3);
            assert!(matches!(args[0], Value::Var(x) if x == v));
            assert!(matches!(args[1], Value::Int(0)));
            assert!(matches!(args[2], Value::Int(7)));
        }
        other => panic!("expected Call(OpSetInt, ...); got {other:?}"),
    }
}

#[test]
fn text_first_set_uses_op_set_text() {
    let (data, vars, _cell, v) =
        with_boxed_local(&Type::Text(Deps::none()), "__cell_text", "s");
    let ir = boxed_scalar_assign_rewrite(&data, &vars, v, "=", Value::Text("hi".to_string()))
        .expect("expected rewrite IR");
    let Value::Insert(ops) = ir else {
        panic!("expected Insert");
    };
    if let Value::Call(d, _) = &ops[2] {
        assert_eq!(*d, data.def_nr("OpSetText"));
    } else {
        panic!("op[2] not a Call");
    }
}

#[test]
fn float_first_set_uses_op_set_float() {
    let (data, vars, _cell, v) = with_boxed_local(&Type::Float, "__cell_float", "f");
    let value = Value::Float(2.5f64.to_bits());
    let ir = boxed_scalar_assign_rewrite(&data, &vars, v, "=", value).expect("expected rewrite IR");
    match &ir {
        Value::Insert(ops) => match &ops[2] {
            Value::Call(d, _) => assert_eq!(*d, data.def_nr("OpSetFloat")),
            other => panic!("expected Call(OpSetFloat, _); got {other:?}"),
        },
        other => panic!("expected Insert([_, _, Call(OpSetFloat, _)]); got {other:?}"),
    }
}

#[test]
fn non_boxed_var_returns_none() {
    let data = operators();
    let mut vars = Function::new();
    let v = vars.add_variable(Variable::plain("n".to_string(), integer()));
    let result = boxed_scalar_assign_rewrite(&data, &vars, v, "=", Value::Int(0));
    assert!(
        result.is_none(),
        "non-boxed Integer must not be rewritten; got {result:?}"
    );
}

#[test]
fn non_cell_reference_returns_none() {
    let mut data = operators();
    data.definitions.push(Definition::new("MyStruct", DefType::Struct));
    let s = data.def_nr("MyStruct");
    let mut vars = Function::new();
    let v = vars.add_variable(Variable::plain(
        "s".to_string(),
        Type::Reference(s, Deps::none()),
    ));
    let result = boxed_scalar_assign_rewrite(&data, &vars, v, "=", Value::Null);
    assert!(
        result.is_none(),
        "non-cell Reference must not be rewritten; got {result:?}"
    );
}

#[test]
fn compound_op_returns_none() {
    let (data, vars, _cell, v) = with_boxed_local(&integer(), "__cell_integer", "n");
    for op in &["+=", "-=", "*=", "/=", "%="] {
        let result = boxed_scalar_assign_rewrite(&data, &vars, v, op, Value::Int(1));
        assert!(
            result.is_none(),
            "op `{op}` must not be rewritten; got {result:?}"
        );
    }
}

#[test]
fn boolean_first_set_uses_op_set_boolean() {
    let (data, vars, _cell, v) = with_boxed_local(&Type::Boolean, "__cell_boolean", "b");
    let ir = boxed_scalar_assign_rewrite(&data, &vars, v, "=", Value::Boolean(true))
        .expect("expected rewrite IR");
    match &ir {
        Value::Insert(ops) => match &ops[2] {
            Value::Call(d, args) => {
                assert_eq!(*d, data.def_nr("OpSetBoolean"));
                assert_eq!(args.len(), 3, "OpSetBoolean is a 3-arg write");
            }
            other => panic!("expected Call(OpSetBoolean, _); got {other:?}"),
        },
        other => panic!("expected Insert([_, _, Call(OpSetBoolean, _)]); got {other:?}"),
    }
}

#[test]
fn change_var_type_guard_preserves_flipped_type() {
    let (data, mut vars, cell, v) = with_boxed_local(&integer(), "__cell_integer", "n");
    change_var_type(&data, &mut vars, v, &integer());
    match vars.tp(v) {
        Type::Reference(d, _) => {
            assert_eq!(*d, cell, "type was reverted; flip not preserved");
        }
        other => panic!("type was reverted to {other:?}"),
    }
}

#[test]
fn first_set_wraps_with_alloc() {
    let (data, mut vars, cell, v) = with_boxed_local(&integer(), "__cell_integer", "n");
    let op_get = data.def_nr("OpGetInt");
    let op_set = data.def_nr("OpSetInt");
    let op_db = data.def_nr("OpDatabase");
    let lhs = Value::Call(op_get, vec![Value::Var(v), Value::Int(0)]);
    let result = Value::Call(op_set, vec![Value::Var(v), Value::Int(0), Value::Int(42)]);
    let wrapped = maybe_prepend_cell_alloc(&data, &mut vars, result.copy(), &lhs);
    let cell_kt = i32::from(data.def(cell).known_type);
    let Value::Insert(ops) = wrapped else {
        panic!("expected Insert wrap; got non-Insert");
    };
    assert_eq!(ops.len(), 3);
    match &ops[0] {
        Value::Assign(set_v, val) => {
            assert_eq!(*set_v, v);
            assert!(matches!(**val, Value::Null));
        }
        other => panic!("op[0] should be Set(n, Null); got {other:?}"),
    }
    match &ops[1] {
        Value::Call(d, args) => {
            assert_eq!(*d, op_db);
            assert!(matches!(args[0], Value::Var(x) if x == v));
            assert!(matches!(args[1], Value::Int(kt) if kt == cell_kt));
        }
        other => panic!("op[1] should be OpDatabase(n, kt); got {other:?}"),
    }
    assert_eq!(
        shown(&ops[2]),
        shown(&result),
        "op[2] should be the original OpSetInt call"
    );
    assert!(
        vars.variables[v as usize].defined,
        "variable should be marked defined after first-set alloc"
    );
}

#[test]
fn subsequent_set_unchanged() {
    let (data, mut vars, _cell, v) = with_boxed_local(&integer(), "__cell_integer", "n");
    vars.mark_defined(v);
    let lhs = Value::Call(data.def_nr("OpGetInt"), vec![Value::Var(v), Value::Int(0)]);
    let result = Value::Call(
        data.def_nr("OpSetInt"),
        vec![Value::Var(v), Value::Int(0), Value::Int(7)],
    );
    let wrapped = maybe_prepend_cell_alloc(&data, &mut vars, result.copy(), &lhs);
    assert_eq!(shown(&wrapped), shown(&result), "subsequent set should not be wrapped");
}

#[test]
fn closure_body_lhs_is_no_op() {
    let data = operators();
    let mut vars = Function::new();
    let op_get = data.def_nr("OpGetInt");
    let op_set = data.def_nr("OpSetInt");
    let field = Value::Call(op_get, vec![Value::Var(99), Value::Int(8)]);
    let lhs = Value::Call(op_get, vec![field.copy(), Value::Int(0)]);
    let result = Value::Call(op_set, vec![field, Value::Int(0), Value::Int(11)]);
    let wrapped = maybe_prepend_cell_alloc(&data, &mut vars, result.copy(), &lhs);
    assert_eq!(
        shown(&wrapped),
        shown(&result),
        "closure-body LHS (non-Var inner) should not be wrapped"
    );
}

#[test]
fn non_boxed_lhs_is_no_op() {
    let mut data = operators();
    data.definitions.push(Definition::new("MyStruct", DefType::Struct));
    let s = data.def_nr("MyStruct");
    let mut vars = Function::new();
    let v = vars.add_variable(Variable::plain(
        "s".to_string(),
        Type::Reference(s, Deps::none()),
    ));
    let lhs = Value::Call(data.def_nr("OpGetInt"), vec![Value::Var(v), Value::Int(0)]);
    let result = Value::Call(
        data.def_nr("OpSetInt"),
        vec![Value::Var(v), Value::Int(0), Value::Int(99)],
    );
    let wrapped = maybe_prepend_cell_alloc(&data, &mut vars, result.copy(), &lhs);
    assert_eq!(
        shown(&wrapped),
        shown(&result),
        "non-cell Reference LHS should not be wrapped"
    );
}

#[test]
fn non_call_lhs_is_no_op() {
    let (data, mut vars, _cell, v) = with_boxed_local(&integer(), "__cell_integer", "n");
    let lhs = Value::Var(v);
    let result = Value::Assign(v, Box::new(Value::Int(5)));
    let wrapped = maybe_prepend_cell_alloc(&data, &mut vars, result.copy(), &lhs);
    assert_eq!(
        shown(&wrapped),
        shown(&result),
        "non-Call LHS (no auto-deref pattern) should not be wrapped"
    );
}

#[test]
fn lhs_with_non_zero_offset_is_no_op() {
    let (data, mut vars, _cell, v) = with_boxed_local(&integer(), "__cell_integer", "n");
    let lhs = Value::Call(data.def_nr("OpGetInt"), vec![Value::Var(v), Value::Int(8)]);
    let result = Value::Call(
        data.def_nr("OpSetInt"),
        vec![Value::Var(v), Value::Int(8), Value::Int(3)],
    );
    let wrapped = maybe_prepend_cell_alloc(&data, &mut vars, result.copy(), &lhs);
    assert_eq!(
        shown(&wrapped),
        shown(&result),
        "non-zero-offset LHS should not be wrapped"
    );
}

#[test]
fn text_cell_first_set_uses_correct_kt() {
    let (data, mut vars, cell, v) =
        with_boxed_local(&Type::Text(Deps::none()), "__cell_text", "s");
    let lhs = Value::Call(data.def_nr("OpGetText"), vec![Value::Var(v), Value::Int(0)]);
    let result = Value::Call(
        data.def_nr("OpSetText"),
        vec![Value::Var(v), Value::Int(0), Value::Text("hi".into())],
    );
    let wrapped = maybe_prepend_cell_alloc(&data, &mut vars, result, &lhs);
    let cell_kt = i32::from(data.def(cell).known_type);
    match wrapped {
        Value::Insert(ops) => match &ops[1] {
            Value::Call(_, args) => {
                assert!(matches!(args[1], Value::Int(kt) if kt == cell_kt));
            }
            other => panic!("expected OpDatabase op[1]; got {other:?}"),
        },
        other => panic!("expected Insert with OpDatabase op[1]; got {other:?}"),
    }
}

#[test]
fn cells_are_named_by_what_they_hold() {
    let data = operators();
    let name = |tp: &Type| cell_struct_name(tp, &data);
    assert_eq!(name(&integer()).as_deref(), Some("__cell_integer"));
    assert_eq!(name(&Type::Text(Deps::frame1(3))).as_deref(), Some("__cell_text"));
    assert_eq!(name(&Type::Boolean).as_deref(), Some("__cell_boolean"));
    assert_eq!(name(&Type::Float).as_deref(), Some("__cell_float"));
    assert_eq!(name(&Type::Vector(Box::new(Type::Float), Deps::none())), None);
}

#[test]
fn an_enum_with_fields_takes_no_cell() {
    let mut data = operators();
    data.definitions.push(Definition::new("Shape", DefType::Enum));
    let d = data.def_nr("Shape");
    let plain = Type::Enum(d, false, Deps::none());
    assert_eq!(cell_struct_name(&plain, &data).as_deref(), Some("__cell_enum_Shape"));
    assert_eq!(cell_struct_name(&Type::Enum(d, true, Deps::none()), &data), None);
}
