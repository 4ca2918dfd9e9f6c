//! Appending to vectors and texts, and the operators that decide on truth.

use crate::data::{self, Data, Definition, Function};
use crate::elements::{self, Mixed};
use crate::ir::{self, Value};
use crate::types::{self, Deps, Type};
use crate::vector_store::{self, Holder};
use vstd::prelude::*;

verus! {

/// One more operand of a concatenation.  `formatted` are the statements that write a
/// value that is no text behind a text.
#[derive(Debug)]
pub struct Operand {
    pub value: Value,
    pub tp: Type,
    pub formatted: Vec<Value>,
}

/// An operand as a value.
pub struct OperandView {
    pub value: ir::Node,
    pub tp: types::Ty,
    pub formatted: Seq<ir::Node>,
}

impl Operand {
    pub open spec fn view(&self) -> OperandView {
        OperandView {
            value: self.value@,
            tp: self.tp@,
            formatted: ir::views(self.formatted@),
        }
    }
}

/// The operands of a list as values.
pub open spec fn operand_views(s: Seq<Operand>) -> Seq<OperandView> {
    Seq::new(s.len(), |i: int| s[i]@)
}

/// The statement that copies the elements of a vector behind those of variable `v`.
pub open spec fn append_call(
    defs: Seq<Definition>,
    v: u16,
    value: ir::Node,
    elem: i32,
) -> ir::Node {
    ir::call(
        vector_store::op(defs, "OpAppendVector"@),
        seq![ir::var(v), value, ir::int_value(elem)],
    )
}

fn make_append(data: &Data, v: u16, value: Value, elem: i32) -> (out: Value)
    requires
        data.definitions.len() <= u32::MAX,
    ensures
        out@ == append_call(data.definitions@, v, value@, elem),
{
    vector_store::cl(
        data,
        "OpAppendVector",
        ir::list3(Value::Var(v), value, Value::Int(elem)),
    )
}

/// The statements that append the first `k` operands to vector variable `v`.
pub open spec fn appends(
    defs: Seq<Definition>,
    v: u16,
    parts: Seq<OperandView>,
    elem: i32,
    k: int,
) -> Seq<ir::Node> {
    Seq::new(k as nat, |i: int| append_call(defs, v, parts[i].value, elem))
}

fn append_parts(data: &Data, v: u16, parts: &Vec<Operand>, elem: i32, steps: &mut Vec<Value>)
    requires
        data.definitions.len() <= u32::MAX,
    ensures
        ir::views(final(steps)@) == ir::views(old(steps)@) + appends(
            data.definitions@,
            v,
            operand_views(parts@),
            elem,
            parts.len() as int,
        ),
{
    let ghost first = ir::views(steps@);
    let ghost all = operand_views(parts@);
    let mut i: usize = 0;
    assert(first + appends(data.definitions@, v, all, elem, 0) =~= first);
    while i < parts.len()
        invariant
            i <= parts.len(),
            data.definitions.len() <= u32::MAX,
            all == operand_views(parts@),
            ir::views(steps@) == first + appends(data.definitions@, v, all, elem, i as int),
        decreases parts.len() - i,
    {
        assert(all[i as int] == parts@[i as int]@);
        ir::put(steps, make_append(data, v, parts[i].value.copy(), elem));
        i = i + 1;
        assert(first + appends(data.definitions@, v, all, elem, i as int) =~= (first + appends(
            data.definitions@,
            v,
            all,
            elem,
            i - 1,
        )).push(append_call(data.definitions@, v, all[i - 1].value, elem)));
    }
}

/// How a concatenation that is assigned to variable `v` takes its first operand.
#[derive(Clone, Copy, Debug, PartialEq, Eq, Structural)]
pub enum First {
    /// It was built in the variable.
    Built,
    /// The variable is a `&` parameter and grows in place.
    Grows,
    /// The elements of another variable are copied.
    Copied,
    /// The variable takes over what was built elsewhere, or keeps what it has.
    Taken,
}

/// How a concatenation takes its first operand.
pub open spec fn first_of(f: data::FnView, code: ir::Node, v: u16) -> First {
    if code.head is Insert {
        First::Built
    } else if f.vars[v as int].tp is RefVar && *f.vars[v as int].tp->RefVar_0 is Vector {
        First::Grows
    } else {
        match ir::unspan(code).head {
            ir::Head::Var(x) => if x != v {
                First::Copied
            } else {
                First::Taken
            },
            _ => First::Taken,
        }
    }
}

/// The statements for the first operand of a concatenation in variable `v`.
pub open spec fn first_steps(
    defs: Seq<Definition>,
    f: data::FnView,
    code: ir::Node,
    v: u16,
    elem: i32,
) -> Seq<ir::Node> {
    match first_of(f, code, v) {
        First::Built => code.kids,
        First::Grows => Seq::empty(),
        First::Copied => seq![append_call(defs, v, code, elem)],
        First::Taken => seq![ir::assign(v, code)],
    }
}

/// The storage that the variable of a concatenation takes over from the call that is
/// its first operand.
pub open spec fn taken_over(
    f: data::FnView,
    code: ir::Node,
    v: u16,
    buffer: Option<u16>,
    first_pass: bool,
) -> Option<u16> {
    if !first_pass && first_of(f, code, v) == First::Taken && ir::unspan(code).head is Call {
        buffer
    } else {
        None
    }
}

fn find_first(vars: &Function, code: &Value, v: u16) -> (r: First)
    requires
        v < vars.variables.len(),
    ensures
        r == first_of(vars@, code@, v),
{
    assert(vars@.vars[v as int] == vars.variables@[v as int]@);
    match code {
        Value::Insert(_) => {
            return First::Built;
        },
        _ => {},
    }
    match &vars.variables[v as usize].tp {
        Type::RefVar(inner) => {
            let ghost t = inner@;
            match &**inner {
                Type::Vector(..) => {
                    return First::Grows;
                },
                _ => {},
            }
        },
        _ => {},
    }
    match code.unspan() {
        Value::Var(x) => if *x != v {
            First::Copied
        } else {
            First::Taken
        },
        _ => First::Taken,
    }
}

/// A concatenation with the errors it has.
pub struct Appended {
    pub code: Value,
    pub tp: Type,
    /// It stands in an expression and makes a temporary.
    pub temporary: bool,
    /// It is built in a `&` parameter that is not its first operand.
    pub in_parameter: bool,
    /// The operands whose elements are stored otherwise.
    pub mixed: Vec<Mixed>,
}

/// How the elements of the first `k` operands are stored otherwise than those of a
/// vector of type `t`.
pub open spec fn all_mixed(t: types::Ty, parts: Seq<OperandView>, k: int) -> Seq<Mixed>
    decreases k,
{
    if k <= 0 {
        Seq::empty()
    } else {
        match elements::mixed(t, parts[k - 1].tp) {
            Some(m) => all_mixed(t, parts, k - 1).push(m),
            None => all_mixed(t, parts, k - 1),
        }
    }
}

fn find_mixed(tp: &Type, parts: &Vec<Operand>, first_pass: bool) -> (out: Vec<Mixed>)
    ensures
        out@ == if first_pass {
            Seq::<Mixed>::empty()
        } else {
            all_mixed(tp@, operand_views(parts@), parts.len() as int)
        },
{
    let ghost all = operand_views(parts@);
    let mut out: Vec<Mixed> = Vec::new();
    if first_pass {
        assert(out@ =~= Seq::<Mixed>::empty());
        return out;
    }
    let mut i: usize = 0;
    while i < parts.len()
        invariant
            i <= parts.len(),
            all == operand_views(parts@),
            out@ == all_mixed(tp@, all, i as int),
        decreases parts.len() - i,
    {
        assert(all[i as int] == parts@[i as int]@);
        match elements::refuse_mixed_element_encoding(tp, &parts[i].tp, false) {
            Some(m) => out.push(m),
            None => {},
        }
        i = i + 1;
    }
    out
}

/// The variables with a new vector variable, and the statements that give it storage.
pub open spec fn fresh_vector(
    defs: Seq<Definition>,
    f: data::FnView,
    h: Holder,
    t: types::Ty,
    first_pass: bool,
) -> (data::FnView, Seq<ir::Node>) {
    let v = f.vars.len() as u16;
    let g = data::created(f, "_vec_"@, t);
    if vector_store::no_record(g, v, first_pass) {
        (g, Seq::empty())
    } else {
        (
            vector_store::with_record(g, v, h, false).0,
            vector_store::record_steps(defs, g, v, h, 0, false),
        )
    }
}

/// The concatenation of vectors in a variable of its own.
pub open spec fn concatenated(
    defs: Seq<Definition>,
    f: data::FnView,
    h: Holder,
    code: ir::Node,
    t: types::Ty,
    parts: Seq<OperandView>,
    elem: i32,
    first_pass: bool,
) -> (data::FnView, ir::Node, types::Ty) {
    let v = f.vars.len() as u16;
    let (g, made) = fresh_vector(defs, f, h, t, first_pass);
    let result = g.vars[v as int].tp;
    (
        g,
        ir::block(
            "Append Vector"@,
            (made.push(append_call(defs, v, code, elem)) + appends(
                defs,
                v,
                parts,
                elem,
                parts.len() as int,
            )).push(ir::var(v)),
            result,
        ),
        result,
    )
}

/// Concatenate vectors of type `tp` in an expression: in a variable of its own, which
/// is refused where that takes storage.
fn append_to_new(
    data: &Data,
    vars: &mut Function,
    h: Holder,
    code: Value,
    tp: &Type,
    parts: &Vec<Operand>,
    elem: i32,
    first_pass: bool,
) -> (r: (Value, Type, bool))
    requires
        data.definitions.len() <= u32::MAX,
        old(vars).variables.len() + 1 < u16::MAX,
    ensures
        (final(vars)@, r.0@, r.1@) == concatenated(
            data.definitions@,
            old(vars)@,
            h,
            code@,
            tp@,
            operand_views(parts@),
            elem,
            first_pass,
        ),
        r.2 == (!first_pass && fresh_vector(data.definitions@, old(vars)@, h, tp@, first_pass).1.len()
            > 0),
{
    let ghost f = vars@;
    let v: u16 = vars.create("_vec_", tp.copy());
    let ghost g = vars@;
    assert(g == data::created(f, "_vec_"@, tp@));
    let mut steps: Vec<Value> = vector_store::vector_db(data, vars, h, v, first_pass);
    let ghost made = fresh_vector(data.definitions@, f, h, tp@, first_pass).1;
    assert(ir::views(steps@) =~= made);
    assert(vars@ == fresh_vector(data.definitions@, f, h, tp@, first_pass).0);
    let temporary: bool = steps.len() > 0 && !first_pass;
    assert(ir::views(steps@).len() == steps.len());
    ir::put(&mut steps, make_append(data, v, code, elem));
    append_parts(data, v, parts, elem, &mut steps);
    assert(vars@.vars[v as int] == vars.variables@[v as int]@);
    let result: Type = vars.variables[v as usize].tp.copy();
    ir::put(&mut steps, Value::Var(v));
    (ir::make_block("Append Vector", steps, result.copy()), result, temporary)
}

/// Concatenate vectors of type `tp`: in variable `target` where the result is assigned
/// to one, and in a variable of its own otherwise.  `elem` is the stored type of the
/// elements, `buffer` the storage that a call as first operand answers through.
pub fn parse_append_vector(
    data: &Data,
    vars: &mut Function,
    h: Holder,
    code: Value,
    tp: &Type,
    parts: &Vec<Operand>,
    target: Option<u16>,
    elem: i32,
    buffer: Option<u16>,
    first_pass: bool,
) -> (r: Appended)
    requires
        data.definitions.len() <= u32::MAX,
        match target {
            Some(v) => v < old(vars).variables.len(),
            None => old(vars).variables.len() + 1 < u16::MAX,
        },
    ensures
        r.mixed@ == if first_pass {
            Seq::<Mixed>::empty()
        } else {
            all_mixed(tp@, operand_views(parts@), parts.len() as int)
        },
        match target {
            Some(v) => {
                let f = old(vars)@;
                let defs = data.definitions@;
                &&& *final(vars) == *old(vars)
                &&& r.code@ == ir::insert(
                    first_steps(defs, f, code@, v, elem) + appends(
                        defs,
                        v,
                        operand_views(parts@),
                        elem,
                        parts.len() as int,
                    ),
                )
                &&& r.tp@ == types::Ty::Rewritten(
                    Box::new(
                        match taken_over(f, code@, v, buffer, first_pass) {
                            Some(w) => types::depending_on(tp@, w),
                            None => tp@,
                        },
                    ),
                )
                &&& !r.temporary
                &&& r.in_parameter == (!first_pass && first_of(f, code@, v) == First::Grows
                    && ir::unspan(code@).head != ir::Head::Var(v))
            },
            None => {
                &&& (final(vars)@, r.code@, r.tp@) == concatenated(
                    data.definitions@,
                    old(vars)@,
                    h,
                    code@,
                    tp@,
                    operand_views(parts@),
                    elem,
                    first_pass,
                )
                &&& !r.in_parameter
                &&& r.temporary == (!first_pass && fresh_vector(
                    data.definitions@,
                    old(vars)@,
                    h,
                    tp@,
                    first_pass,
                ).1.len() > 0)
            },
        },
{
    let mixed: Vec<Mixed> = find_mixed(tp, parts, first_pass);
    let v: u16 = match target {
        Some(v) => v,
        None => {
            let (code, tp, temporary): (Value, Type, bool) = append_to_new(
                data,
                vars,
                h,
                code,
                tp,
                parts,
                elem,
                first_pass,
            );
            return Appended { code, tp, temporary, in_parameter: false, mixed };
        },
    };
    let ghost n = code@;
    let first: First = find_first(vars, &code, v);
    let own: bool = code.unspan().is_var(v);
    let call: bool = match code.unspan() {
        Value::Call(..) => true,
        _ => false,
    };
    let mut steps: Vec<Value> = match first {
        First::Built => match code {
            Value::Insert(s) => {
                proof {
                    ir::shape(Value::Insert(s));
                }
                s
            },
            _ => Vec::new(),
        },
        First::Grows => Vec::new(),
        First::Copied => ir::list1(make_append(data, v, code, elem)),
        First::Taken => ir::list1(ir::make_assign(v, code)),
    };
    assert(ir::views(steps@) =~= first_steps(data.definitions@, vars@, n, v, elem));
    append_parts(data, v, parts, elem, &mut steps);
    let result: Type = match buffer {
        Some(w) => if !first_pass && call && first == First::Taken {
            tp.depending(w)
        } else {
            tp.copy()
        },
        None => tp.copy(),
    };
    Appended {
        code: ir::make_insert(steps),
        tp: Type::Rewritten(Box::new(result)),
        temporary: false,
        in_parameter: !first_pass && first == First::Grows && !own,
        mixed,
    }
}

/// What an operand of a text is appended as.
#[derive(Clone, Copy, Debug, PartialEq, Eq, Structural)]
pub enum AppendedAs {
    Character,
    Text,
    Formatted,
}

/// What an operand of a type is appended as; a `&` parameter is what it points at.
pub open spec fn appended_as(t: types::Ty) -> AppendedAs {
    let pointed = match t {
        types::Ty::RefVar(inner) => *inner,
        _ => t,
    };
    match pointed {
        types::Ty::Character => AppendedAs::Character,
        types::Ty::Text(_) => AppendedAs::Text,
        _ => AppendedAs::Formatted,
    }
}

fn find_appended_as(tp: &Type) -> (r: AppendedAs)
    ensures
        r == appended_as(tp@),
{
    match tp {
        Type::Character => AppendedAs::Character,
        Type::Text(_) => AppendedAs::Text,
        Type::RefVar(inner) => {
            let ghost t = inner@;
            match &**inner {
                Type::Character => AppendedAs::Character,
                Type::Text(_) => AppendedAs::Text,
                _ => AppendedAs::Formatted,
            }
        },
        _ => AppendedAs::Formatted,
    }
}

/// The operators that append to a text variable: a `&` parameter has its own.
pub open spec fn text_op(by_ref: bool) -> Seq<char> {
    if by_ref {
        "OpAppendStackText"@
    } else {
        "OpAppendText"@
    }
}

/// The operator that appends a character.
pub open spec fn character_op(by_ref: bool) -> Seq<char> {
    if by_ref {
        "OpAppendStackCharacter"@
    } else {
        "OpAppendCharacter"@
    }
}

/// The statements that append one operand to text variable `v`.
pub open spec fn text_steps(
    defs: Seq<Definition>,
    v: u16,
    by_ref: bool,
    part: OperandView,
) -> Seq<ir::Node> {
    match appended_as(part.tp) {
        AppendedAs::Character => seq![
            ir::call(
                vector_store::op(defs, character_op(by_ref)),
                seq![ir::var(v), part.value],
            ),
        ],
        AppendedAs::Text => seq![
            ir::call(vector_store::op(defs, text_op(by_ref)), seq![ir::var(v), part.value]),
        ],
        AppendedAs::Formatted => part.formatted,
    }
}

/// The statements that append the first `k` operands to text variable `v`.
pub open spec fn all_text_steps(
    defs: Seq<Definition>,
    v: u16,
    by_ref: bool,
    parts: Seq<OperandView>,
    k: int,
) -> Seq<ir::Node>
    decreases k,
{
    if k <= 0 {
        Seq::empty()
    } else {
        all_text_steps(defs, v, by_ref, parts, k - 1) + text_steps(defs, v, by_ref, parts[k - 1])
    }
}

/// The statements that start a text: a work text is cleared first.
pub open spec fn text_start(
    defs: Seq<Definition>,
    v: u16,
    by_ref: bool,
    fresh: bool,
    code: ir::Node,
    t: types::Ty,
) -> Seq<ir::Node> {
    if !fresh {
        seq![ir::call(vector_store::op(defs, text_op(by_ref)), seq![ir::var(v), code])]
    } else if by_ref {
        seq![
            ir::call(vector_store::op(defs, "OpClearStackText"@), seq![ir::var(v)]),
            ir::call(vector_store::op(defs, "OpAppendStackText"@), seq![ir::var(v), code]),
        ]
    } else if t is Character {
        seq![
            ir::call(vector_store::op(defs, "OpClearText"@), seq![ir::var(v)]),
            ir::call(vector_store::op(defs, "OpAppendCharacter"@), seq![ir::var(v), code]),
        ]
    } else {
        seq![
            ir::call(vector_store::op(defs, "OpClearText"@), seq![ir::var(v)]),
            ir::call(vector_store::op(defs, "OpAppendText"@), seq![ir::var(v), code]),
        ]
    }
}

fn make_text_start(data: &Data, v: u16, by_ref: bool, fresh: bool, code: Value, tp: &Type) -> (s: Vec<
    Value,
>)
    requires
        data.definitions.len() <= u32::MAX,
    ensures
        ir::views(s@) == text_start(data.definitions@, v, by_ref, fresh, code@, tp@),
{
    let character: bool = match tp {
        Type::Character => true,
        _ => false,
    };
    let append: &str = if by_ref {
        "OpAppendStackText"
    } else if fresh && character {
        "OpAppendCharacter"
    } else {
        "OpAppendText"
    };
    let add: Value = vector_store::cl(data, append, ir::list2(Value::Var(v), code));
    if !fresh {
        return ir::list1(add);
    }
    let clear: &str = if by_ref {
        "OpClearStackText"
    } else {
        "OpClearText"
    };
    ir::list2(vector_store::cl(data, clear, ir::list1(Value::Var(v))), add)
}

fn append_operand(data: &Data, v: u16, by_ref: bool, part: &Operand, steps: &mut Vec<Value>)
    requires
        data.definitions.len() <= u32::MAX,
    ensures
        ir::views(final(steps)@) == ir::views(old(steps)@) + text_steps(
            data.definitions@,
            v,
            by_ref,
            part@,
        ),
{
    let op: &str = match find_appended_as(&part.tp) {
        AppendedAs::Character => if by_ref {
            "OpAppendStackCharacter"
        } else {
            "OpAppendCharacter"
        },
        AppendedAs::Text => if by_ref {
            "OpAppendStackText"
        } else {
            "OpAppendText"
        },
        AppendedAs::Formatted => {
            ir::put_all(steps, ir::copy_all(&part.formatted));
            return;
        },
    };
    let add: Value = vector_store::cl(data, op, ir::list2(Value::Var(v), part.value.copy()));
    let ghost n = add@;
    let ghost before = ir::views(steps@);
    ir::put(steps, add);
    assert(before.push(n) =~= before + seq![n]);
}

/// Append texts: to variable `target` where the result is assigned to one, and to the
/// work text `work` otherwise.  The value is the text with the variable it is in.
pub fn parse_append_text(
    data: &Data,
    vars: &Function,
    code: Value,
    tp: &Type,
    parts: &Vec<Operand>,
    target: Option<u16>,
    work: u16,
) -> (r: (Value, Type))
    requires
        data.definitions.len() <= u32::MAX,
        match target {
            Some(v) => v < vars.variables.len(),
            None => work < vars.variables.len(),
        },
    ensures
        ({
            let v = match target {
                Some(v) => v,
                None => work,
            };
            let by_ref = vars@.vars[v as int].tp is RefVar;
            let text = types::Ty::Text(types::frame1(v));
            let steps = text_start(
                data.definitions@,
                v,
                by_ref,
                target is None,
                code@,
                tp@,
            ) + all_text_steps(
                data.definitions@,
                v,
                by_ref,
                operand_views(parts@),
                parts.len() as int,
            );
            if target is Some {
                r.0@ == ir::insert(steps) && r.1@ == types::Ty::Rewritten(Box::new(text))
            } else {
                r.0@ == ir::block("Add text"@, steps.push(ir::var(v)), text) && r.1@ == text
            }
        }),
{
    let (v, fresh): (u16, bool) = match target {
        Some(v) => (v, false),
        None => (work, true),
    };
    assert(vars@.vars[v as int] == vars.variables@[v as int]@);
    let by_ref: bool = match vars.variables[v as usize].tp {
        Type::RefVar(_) => true,
        _ => false,
    };
    let ghost start = text_start(data.definitions@, v, by_ref, fresh, code@, tp@);
    let ghost all = operand_views(parts@);
    let mut steps: Vec<Value> = make_text_start(data, v, by_ref, fresh, code, tp);
    let mut i: usize = 0;
    assert(start + all_text_steps(data.definitions@, v, by_ref, all, 0) =~= start);
    while i < parts.len()
        invariant
            i <= parts.len(),
            data.definitions.len() <= u32::MAX,
            all == operand_views(parts@),
            ir::views(steps@) == start + all_text_steps(
                data.definitions@,
                v,
                by_ref,
                all,
                i as int,
            ),
        decreases parts.len() - i,
    {
        assert(all[i as int] == parts@[i as int]@);
        append_operand(data, v, by_ref, &parts[i], &mut steps);
        i = i + 1;
        assert(start + all_text_steps(data.definitions@, v, by_ref, all, i as int) =~= (start
            + all_text_steps(data.definitions@, v, by_ref, all, i - 1)) + text_steps(
            data.definitions@,
            v,
            by_ref,
            all[i - 1],
        ));
    }
    let text: Type = Type::Text(Deps::frame1(v));
    if fresh {
        ir::put(&mut steps, Value::Var(v));
        (ir::make_block("Add text", steps, text.copy()), text)
    } else {
        (ir::make_insert(steps), Type::Rewritten(Box::new(text)))
    }
}

/// Whether a truth value of a type may be neither true nor false.
pub open spec fn open_truth(t: types::Ty) -> bool {
    match t {
        types::Ty::Optional(inner) => *inner is Boolean,
        types::Ty::Null => true,
        _ => false,
    }
}

/// What decides a boolean operator besides its first operand: the second one, which
/// counts as false where it may be absent and is.
pub open spec fn second_truth(defs: Seq<Definition>, second: ir::Node, t: types::Ty) -> ir::Node {
    if open_truth(t) {
        ir::call(
            vector_store::op(defs, "OpEqBool"@),
            seq![second, ir::leaf(ir::Head::Boolean(true))],
        )
    } else {
        second
    }
}

/// A boolean operator: the second operand is not evaluated where the first decides.
pub open spec fn decided(
    defs: Seq<Definition>,
    first: ir::Node,
    second: ir::Node,
    t: types::Ty,
    is_or: bool,
) -> ir::Node {
    if is_or {
        ir::choice(first, ir::leaf(ir::Head::Boolean(true)), second_truth(defs, second, t))
    } else {
        ir::choice(first, second_truth(defs, second, t), ir::leaf(ir::Head::Boolean(false)))
    }
}

/// Join two truth values with `||` or `&&`.  Both are converted to a truth value
/// already; `tp` and `second_tp` are the types they had.  The answer says as well
/// whether the first pass could not tell one of these types.
pub fn boolean_operator(
    data: &Data,
    first: Value,
    tp: &Type,
    second: Value,
    second_tp: &Type,
    is_or: bool,
    first_pass: bool,
) -> (r: (Value, bool))
    requires
        data.definitions.len() <= u32::MAX,
    ensures
        r.0@ == decided(data.definitions@, first@, second@, second_tp@, is_or),
        r.1 == (first_pass && (types::unknown(tp@) || types::unknown(second_tp@))),
{
    let unresolved: bool = first_pass && (tp.is_unknown() || second_tp.is_unknown());
    let open: bool = match second_tp {
        Type::Null => true,
        Type::Optional(inner) => {
            let ghost t = inner@;
            match &**inner {
                Type::Boolean => true,
                _ => false,
            }
        },
        _ => false,
    };
    let other: Value = if open {
        vector_store::cl(data, "OpEqBool", ir::list2(second, Value::Boolean(true)))
    } else {
        second
    };
    let code: Value = if is_or {
        ir::make_choice(first, Value::Boolean(true), other)
    } else {
        ir::make_choice(first, other, Value::Boolean(false))
    };
    (code, unresolved)
}

} // verus!
