//! The operands that expressions start from: which form one has, literals, and what
//! the place of a bracketed literal says of it.

use crate::data::{self, Data, Definition, Function};
use crate::ir::{self, Value};
use crate::schema::Stores;
use crate::text;
use crate::tuples;
use crate::types::{self, IntegerSpec, Type};
use crate::vector_store;
use vstd::prelude::*;

verus! {

/// The form of an operand, as the token it starts with tells.
#[derive(Clone, Copy, Debug, PartialEq, Eq, Structural)]
pub enum Form {
    Reserved,
    Not,
    Complement,
    Minus,
    Parenthesis,
    Block,
    Vector,
    If,
    Match,
    EmptyLambda,
    ShortLambda,
    SizeOf,
    TypeName,
    Assert,
    Panic,
    Variable,
    True,
    False,
    Null,
    Lambda,
    /// A function name behind `fn`, which is refused but read as the function.
    FnName,
    Other,
}

/// The form of an operand that starts with a word; `paren` tells that `(` follows.
pub open spec fn form_of(word: Seq<char>, paren: bool) -> Form {
    if word == "fn"@ {
        if paren {
            Form::Lambda
        } else {
            Form::FnName
        }
    } else if word == "debug_assert"@ {
        Form::Reserved
    } else if word == "!"@ {
        Form::Not
    } else if word == "~"@ {
        Form::Complement
    } else if word == "-"@ {
        Form::Minus
    } else if word == "("@ {
        Form::Parenthesis
    } else if word == "{"@ {
        Form::Block
    } else if word == "["@ {
        Form::Vector
    } else if word == "if"@ {
        Form::If
    } else if word == "match"@ {
        Form::Match
    } else if word == "||"@ {
        Form::EmptyLambda
    } else if word == "|"@ {
        Form::ShortLambda
    } else if word == "sizeof"@ {
        Form::SizeOf
    } else if word == "type_name"@ {
        Form::TypeName
    } else if word == "assert"@ {
        Form::Assert
    } else if word == "panic"@ {
        Form::Panic
    } else if word == "$"@ {
        Form::Variable
    } else if word == "true"@ {
        Form::True
    } else if word == "false"@ {
        Form::False
    } else if word == "null"@ {
        Form::Null
    } else {
        Form::Other
    }
}

/// The form of an operand that starts with a word; `paren` tells that `(` follows.
pub fn form(word: &str, paren: bool) -> (r: Form)
    ensures
        r == form_of(word@, paren),
{
    if text::same(word, "fn") {
        if paren {
            Form::Lambda
        } else {
            Form::FnName
        }
    } else if text::same(word, "debug_assert") {
        Form::Reserved
    } else if text::same(word, "!") {
        Form::Not
    } else if text::same(word, "~") {
        Form::Complement
    } else if text::same(word, "-") {
        Form::Minus
    } else if text::same(word, "(") {
        Form::Parenthesis
    } else if text::same(word, "{") {
        Form::Block
    } else if text::same(word, "[") {
        Form::Vector
    } else if text::same(word, "if") {
        Form::If
    } else if text::same(word, "match") {
        Form::Match
    } else if text::same(word, "||") {
        Form::EmptyLambda
    } else if text::same(word, "|") {
        Form::ShortLambda
    } else if text::same(word, "sizeof") {
        Form::SizeOf
    } else if text::same(word, "type_name") {
        Form::TypeName
    } else if text::same(word, "assert") {
        Form::Assert
    } else if text::same(word, "panic") {
        Form::Panic
    } else if text::same(word, "$") {
        Form::Variable
    } else if text::same(word, "true") {
        Form::True
    } else if text::same(word, "false") {
        Form::False
    } else if text::same(word, "null") {
        Form::Null
    } else {
        Form::Other
    }
}

/// A literal of one token.  Floating-point numbers are given by their bits.
#[derive(Clone, Copy, Debug, PartialEq, Eq, Structural)]
pub enum Literal {
    Integer(i32),
    Long(i64),
    Float(u64),
    Single(u32),
    Character(i32),
    Boolean(bool),
    Null,
}

/// The code and the type of a literal.
pub open spec fn literal_code(defs: Seq<Definition>, l: Literal) -> (ir::Node, types::Ty) {
    match l {
        Literal::Integer(n) => (ir::int_value(n), types::Ty::Integer(IntegerSpec::plain())),
        Literal::Long(n) => (
            ir::leaf(ir::Head::Long(n)),
            types::Ty::Integer(IntegerSpec::long()),
        ),
        Literal::Float(bits) => (ir::leaf(ir::Head::Float(bits)), types::Ty::Float),
        Literal::Single(bits) => (ir::leaf(ir::Head::Single(bits)), types::Ty::Single),
        Literal::Character(n) => (
            ir::call(
                vector_store::op(defs, "OpConvCharacterFromInt"@),
                seq![ir::int_value(n)],
            ),
            types::Ty::Character,
        ),
        Literal::Boolean(b) => (ir::leaf(ir::Head::Boolean(b)), types::Ty::Boolean),
        Literal::Null => (ir::leaf(ir::Head::Null), types::Ty::Null),
    }
}

/// The code and the type of a literal.
pub fn literal_value(data: &Data, l: Literal) -> (r: (Value, Type))
    requires
        data.definitions.len() <= u32::MAX,
    ensures
        (r.0@, r.1@) == literal_code(data.definitions@, l),
{
    match l {
        Literal::Integer(n) => (Value::Int(n), Type::Integer(IntegerSpec::signed32())),
        Literal::Long(n) => (Value::Long(n), Type::Integer(IntegerSpec::wide())),
        Literal::Float(bits) => (Value::Float(bits), Type::Float),
        Literal::Single(bits) => (Value::Single(bits), Type::Single),
        Literal::Character(n) => (
            vector_store::cl(data, "OpConvCharacterFromInt", ir::list1(Value::Int(n))),
            Type::Character,
        ),
        Literal::Boolean(b) => (Value::Boolean(b), Type::Boolean),
        Literal::Null => (Value::Null, Type::Null),
    }
}

/// Whether `!` on an operand of a type is always false: it tests for absence, and the
/// operand is never absent.
pub open spec fn never_negated(t: types::Ty, not_null: bool) -> bool {
    let pointed = match t {
        types::Ty::RefVar(inner) => *inner,
        _ => t,
    };
    let certain = not_null || match pointed {
        types::Ty::Integer(spec) => spec.not_null,
        _ => false,
    };
    certain && match pointed {
        types::Ty::Boolean | types::Ty::Null | types::Ty::Unknown(_) => false,
        _ => true,
    }
}

/// Whether `!` on an operand is worth a warning, as it is always false.  `not_null`
/// tells that the expression is never absent.
pub fn redundant_negation(tp: &Type, not_null: bool, first_pass: bool) -> (r: bool)
    ensures
        r == (!first_pass && never_negated(tp@, not_null)),
{
    let pointed: &Type = match tp {
        Type::RefVar(inner) => {
            assert(tp@ == types::Ty::RefVar(Box::new(inner@)));
            &**inner
        },
        _ => tp,
    };
    let ghost t = pointed@;
    let certain: bool = not_null || match pointed {
        Type::Integer(spec) => spec.not_null,
        _ => false,
    };
    let plain: bool = match pointed {
        Type::Boolean | Type::Null | Type::Unknown(_) => false,
        _ => true,
    };
    !first_pass && certain && plain
}

/// Whether an expression is a number as it is written.
pub open spec fn is_number(n: ir::Node) -> bool {
    match ir::unspan(n).head {
        ir::Head::Int(_) | ir::Head::Long(_) | ir::Head::Float(_) | ir::Head::Single(_) => true,
        _ => false,
    }
}

/// Whether a leading `-` is worth a warning, as it binds tighter than the power that
/// follows: not for a number, of which it is the sign.
pub fn minus_binds_tighter(operand: &Value, power_follows: bool, first_pass: bool) -> (r: bool)
    ensures
        r == (!first_pass && power_follows && !is_number(operand@)),
{
    let number: bool = match operand.unspan() {
        Value::Int(_) | Value::Long(_) | Value::Float(_) | Value::Single(_) => true,
        _ => false,
    };
    !first_pass && power_follows && !number
}

/// Whether the declared type of a tuple member says what a lambda in its place takes:
/// a function, or a tuple with a member that does.
pub open spec fn seeds(t: types::Ty) -> bool
    decreases t, 0int,
{
    match t {
        types::Ty::Optional(inner) => seeds(*inner),
        types::Ty::Function(..) => true,
        types::Ty::Tuple(ms) => seeds_any(ms, ms.len() as int),
        _ => false,
    }
}

/// Whether one of the first `k` members says so.
pub open spec fn seeds_any(ts: Seq<types::Ty>, k: int) -> bool
    decreases ts, k,
{
    if k <= 0 || k > ts.len() {
        false
    } else {
        seeds_any(ts, k - 1) || seeds(ts[k - 1])
    }
}

/// Whether the declared type of a tuple member says what a lambda in its place takes.
pub fn seeds_member(tp: &Type) -> (r: bool)
    ensures
        r == seeds(tp@),
    decreases tp, 1int,
{
    proof {
        reveal_with_fuel(types::type_views, 2);
        reveal_with_fuel(Type::view, 2);
    }
    match tp {
        Type::Optional(inner) => seeds_member(inner),
        Type::Function(..) => true,
        Type::Tuple(ts) => any_seeds(ts),
        _ => false,
    }
}

fn any_seeds(ts: &Vec<Type>) -> (found: bool)
    ensures
        found == seeds_any(types::type_views(ts@), ts.len() as int),
    decreases ts, 0int,
{
    let ghost all = types::type_views(ts@);
    let mut i: usize = 0;
    let mut found: bool = false;
    while i < ts.len()
        invariant
            i <= ts.len(),
            all == types::type_views(ts@),
            found == seeds_any(all, i as int),
        decreases ts.len() - i,
    {
        assert(decreases_to!(*ts => ts[i as int]));
        assert(all[i as int] == ts@[i as int]@);
        if seeds_member(&ts[i]) {
            found = true;
        }
        i = i + 1;
    }
    found
}

/// The declared members of a tuple in a place: by the type of the destination, or by
/// what is expected there.
pub open spec fn declared_members(dest: types::Ty, expected: types::Ty) -> Seq<types::Ty> {
    match types::base(dest) {
        types::Ty::Tuple(ms) => ms,
        _ => match types::base(expected) {
            types::Ty::Tuple(ms) => ms,
            _ => Seq::empty(),
        },
    }
}

/// What is expected of member `i` of a tuple, where its declared type says what a
/// lambda takes.
pub open spec fn member_hint(ms: Seq<types::Ty>, i: int) -> Option<types::Ty> {
    if 0 <= i < ms.len() && seeds(ms[i]) {
        Some(types::base(ms[i]))
    } else {
        None
    }
}

/// What is expected of member `i` of a tuple in a place; `None` where nothing is said.
pub fn tuple_member_hint(dest: &Type, expected: &Type, i: usize) -> (r: Option<Type>)
    ensures
        match r {
            Some(t) => member_hint(declared_members(dest@, expected@), i as int) == Some(t@),
            None => member_hint(declared_members(dest@, expected@), i as int) is None,
        },
{
    proof {
        reveal_with_fuel(types::type_views, 2);
        reveal_with_fuel(Type::view, 2);
    }
    let ms: &Vec<Type> = match dest.base() {
        Type::Tuple(ms) => ms,
        _ => match expected.base() {
            Type::Tuple(ms) => ms,
            _ => {
                return None;
            },
        },
    };
    assert(declared_members(dest@, expected@) == types::type_views(ms@));
    if i < ms.len() && seeds_member(&ms[i]) {
        Some(ms[i].base().copy())
    } else {
        None
    }
}

/// Whether a parenthesised expression is a concatenation built in place whose value
/// a method behind it would miss.
pub open spec fn misses_value(val: ir::Node, t: types::Ty) -> bool {
    val.head is Insert && match t {
        types::Ty::Rewritten(inner) => *inner is Vector,
        types::Ty::Vector(..) => true,
        _ => false,
    }
}

/// Whether a method behind a parenthesised expression is refused.
pub fn refuse_method_on_concat(val: &Value, tp: &Type, method_follows: bool, first_pass: bool) -> (r:
    bool)
    ensures
        r == (!first_pass && method_follows && misses_value(val@, tp@)),
{
    let built: bool = match val {
        Value::Insert(_) => true,
        _ => false,
    };
    let vector: bool = match tp {
        Type::Vector(..) => true,
        Type::Rewritten(inner) => {
            let ghost t = inner@;
            match &**inner {
                Type::Vector(..) => true,
                _ => false,
            }
        },
        _ => false,
    };
    !first_pass && method_follows && built && vector
}

/// The type that a bracketed literal is built against: that of the destination, or
/// where it has none what is expected, for an empty literal and for keyed collections,
/// and the narrower `hint` otherwise.  A literal whose methods follow is built for
/// itself.
pub open spec fn literal_type(
    dest: types::Ty,
    expected: types::Ty,
    hint: types::Ty,
    empty: bool,
    receiver: bool,
) -> types::Ty {
    let said = if types::collection(expected) && (empty || types::keyed(expected)) {
        types::bare(expected)
    } else {
        hint
    };
    if receiver {
        types::Ty::Unknown(0)
    } else if types::unknown(dest) && types::collection(said) {
        said
    } else {
        dest
    }
}

/// The type that a bracketed literal is built against.
pub fn find_literal_type(
    dest: &Type,
    expected: &Type,
    hint: &Type,
    empty: bool,
    receiver: bool,
) -> (t: Type)
    ensures
        t@ == literal_type(dest@, expected@, hint@, empty, receiver),
{
    if receiver {
        return Type::Unknown(0);
    }
    let said: Type = if types::is_collection(expected) && (empty || types::is_keyed(expected)) {
        expected.without_deps()
    } else {
        hint.copy()
    };
    if dest.is_unknown() && types::is_collection(&said) {
        said
    } else {
        dest.copy()
    }
}

/// The variables and the code once a literal that was built in variable `lhs` turns
/// out to have methods behind it: it moves to a variable of its own, and `lhs` is free
/// for what the methods answer.
pub open spec fn received(f: data::FnView, val: ir::Node, lhs: u16) -> (
    data::FnView,
    ir::Node,
    types::Ty,
) {
    let t = f.vars[lhs as int].tp;
    let recv = f.vars.len() as u16;
    let g1 = data::created(f, "_vec_"@, t);
    let g2 = data::with_var(g1, recv, data::VarView { defined: true, ..g1.vars[recv as int] });
    let g3 = data::with_var(g2, recv, data::VarView { inline_ref: true, ..g2.vars[recv as int] });
    let g4 = data::with_var(
        g3,
        lhs,
        data::VarView { tp: types::Ty::Unknown(0), ..g3.vars[lhs as int] },
    );
    (g4, ir::block("Vector"@, seq![ir::renamed(val, lhs, recv), ir::var(recv)], t), t)
}

/// Move a literal that was built in variable `lhs` to a variable of its own, for the
/// methods behind it.
pub fn literal_receiver(vars: &mut Function, val: &Value, lhs: u16) -> (r: (Value, Type))
    requires
        lhs < old(vars).variables.len() < u16::MAX,
    ensures
        (final(vars)@, r.0@, r.1@) == received(old(vars)@, val@, lhs),
        final(vars).variables.len() == old(vars).variables.len() + 1,
{
    assert(vars@.vars[lhs as int] == vars.variables@[lhs as int]@);
    let tp: Type = vars.variables[lhs as usize].tp.copy();
    let recv: u16 = vars.create("_vec_", tp.copy());
    vars.mark_defined(recv);
    vars.mark_inline_ref(recv);
    let build: Value = val.rename_var(lhs, recv);
    vars.set_type(lhs, Type::Unknown(0));
    (ir::make_block("Vector", ir::list2(build, Value::Var(recv)), tp.copy()), tp)
}

/// Whether the first member of a parenthesised list is built apart from the variable
/// that the whole is assigned to: a member of a tuple is not the whole.
pub fn first_member_apart(val: &Value, tuple_follows: bool) -> (r: bool)
    ensures
        r == (val@.head is Var && tuple_follows),
{
    proof {
        ir::shape(*val);
    }
    match val {
        Value::Var(_) => tuple_follows,
        _ => false,
    }
}

/// A variable that a literal with methods behind it is assigned to: the function and
/// the number in it.
#[derive(Clone, Copy, Debug, PartialEq, Eq, Structural)]
pub struct ChainTarget {
    pub context: u32,
    pub var: u16,
}

/// Whether the literal that is built at `val` is known to have methods behind it.
pub open spec fn receives(known: Seq<ChainTarget>, context: u32, val: ir::Node) -> bool {
    match val.head {
        ir::Head::Var(v) => known.contains(ChainTarget { context, var: v }),
        _ => false,
    }
}

fn has_target(known: &Vec<ChainTarget>, t: ChainTarget) -> (r: bool)
    ensures
        r == known@.contains(t),
{
    let mut i: usize = 0;
    while i < known.len()
        invariant
            i <= known.len(),
            forall|j: int| 0 <= j < i ==> #[trigger] known@[j] != t,
        decreases known.len() - i,
    {
        if known[i] == t {
            return true;
        }
        i = i + 1;
    }
    false
}

/// Whether the literal that is built at `val` is known from an earlier pass to have
/// methods behind it.  It is then built apart from the start: the variable has the type
/// of what the methods answer.
pub fn known_receiver(known: &Vec<ChainTarget>, context: u32, val: &Value) -> (r: bool)
    ensures
        r == receives(known@, context, val@),
{
    proof {
        ir::shape(*val);
    }
    match val {
        Value::Var(v) => has_target(known, ChainTarget { context, var: *v }),
        _ => false,
    }
}

/// Remember for the next pass that the literal for variable `var` has methods behind it.
pub fn note_receiver(known: &mut Vec<ChainTarget>, context: u32, var: u16)
    ensures
        final(known)@ == if old(known)@.contains(ChainTarget { context, var }) {
            old(known)@
        } else {
            old(known)@.push(ChainTarget { context, var })
        },
{
    let t = ChainTarget { context, var };
    if !has_target(known, t) {
        known.push(t);
    }
}

/// A literal that was noted is known in the next pass, and so is every one before it.
pub proof fn what_is_noted_is_known(known: Seq<ChainTarget>, context: u32, var: u16)
    ensures
        ({
            let t = ChainTarget { context, var };
            let now = if known.contains(t) {
                known
            } else {
                known.push(t)
            };
            &&& receives(now, context, ir::var(var))
            &&& forall|c: u32, v: u16|
                receives(known, c, ir::var(v)) ==> #[trigger] receives(now, c, ir::var(v))
        }),
{
    let t = ChainTarget { context, var };
    let more = known.push(t);
    assert(more[known.len() as int] == t);
    assert forall|c: u32, v: u16| receives(known, c, ir::var(v)) implies #[trigger] receives(
        more,
        c,
        ir::var(v),
    ) by {
        let i = choose|i: int| 0 <= i < known.len() && known[i] == (ChainTarget { context: c, var: v });
        assert(more[i] == known[i]);
    }
}

/// Where the variants of an enumeration are looked up for a bare name.
#[derive(Clone, Copy, Debug, PartialEq, Eq, Structural)]
pub enum VariantsOf {
    /// The receiver, as it is.
    Receiver,
    /// The type of the destination.
    Destination,
    /// What is expected in the place.
    Expected,
}

/// Where the variants are looked up for a bare name: in the receiver where that is an
/// enumeration, or else in the destination, or else in what is expected.
pub fn variants_of(receiver: bool, destination: bool, expected: bool) -> (r: VariantsOf)
    ensures
        r == VariantsOf::Receiver <==> receiver || (!destination && !expected),
        r == VariantsOf::Destination <==> !receiver && destination,
        r == VariantsOf::Expected <==> !receiver && !destination && expected,
{
    if receiver {
        VariantsOf::Receiver
    } else if destination {
        VariantsOf::Destination
    } else if expected {
        VariantsOf::Expected
    } else {
        VariantsOf::Receiver
    }
}

/// The definition that a string builds a value of; `u32::MAX` for one that is text.
/// `destination` and `expected` are what the two types ask for.  What is expected does
/// not reach a string inside a hole of another.
pub fn string_target(destination: u32, expected: u32, in_hole: bool) -> (d: u32)
    ensures
        d == if destination != u32::MAX {
            destination
        } else if in_hole {
            u32::MAX
        } else {
            expected
        },
{
    if destination == u32::MAX && !in_hole {
        expected
    } else {
        destination
    }
}

/// The operation that a prefix stands for.
pub open spec fn operation_of(f: Form) -> Option<Seq<char>> {
    match f {
        Form::Not => Some("Not"@),
        Form::Complement => Some("BitNot"@),
        Form::Minus => Some("Min"@),
        _ => None,
    }
}

/// The operation that a prefix stands for; `None` for any other form.
pub fn prefix_operation(f: Form) -> (r: Option<&'static str>)
    ensures
        match r {
            Some(name) => operation_of(f) == Some(name@),
            None => operation_of(f) is None,
        },
{
    match f {
        Form::Not => Some("Not"),
        Form::Complement => Some("BitNot"),
        Form::Minus => Some("Min"),
        _ => None,
    }
}

/// Test whether what a record or collection variable names is absent: `present` is the
/// truth value of its presence.
pub fn negated_presence(data: &Data, present: Value) -> (r: (Value, Type))
    requires
        data.definitions.len() <= u32::MAX,
    ensures
        r.0@ == ir::call(vector_store::op(data.definitions@, "OpNot"@), seq![present@]),
        r.1@ == types::Ty::Boolean,
{
    (vector_store::cl(data, "OpNot", ir::list1(present)), Type::Boolean)
}

/// What is worth a warning of a prefix.
#[derive(Clone, Copy, Debug, PartialEq, Eq, Structural)]
pub enum Warning {
    /// The negation is always false.
    RedundantNegation,
    /// The sign binds tighter than the power behind it.
    MinusBindsTighter,
}

/// The warning that a prefix on an operand is worth.
pub open spec fn warning_of(
    form: Form,
    operand: ir::Node,
    t: types::Ty,
    not_null: bool,
    power_follows: bool,
    first_pass: bool,
) -> Option<Warning> {
    if first_pass {
        None
    } else if form == Form::Not && never_negated(t, not_null) {
        Some(Warning::RedundantNegation)
    } else if form == Form::Minus && power_follows && !is_number(operand) {
        Some(Warning::MinusBindsTighter)
    } else {
        None
    }
}

/// What a prefix makes of its operand.
pub enum Prefixed {
    /// The operation of this name on the operand, and on nothing else.
    Operation(&'static str, Value),
    /// A truth value: that what the operand names is absent.
    Absence(Value),
}

/// Whether `p` is what a prefix makes of an operand.
pub open spec fn prefixes(
    defs: Seq<Definition>,
    form: Form,
    operand: ir::Node,
    present: Option<ir::Node>,
    p: Prefixed,
) -> bool {
    match p {
        Prefixed::Operation(name, x) => operation_of(form) == Some(name@) && x@ == operand
            && !(form == Form::Not && present is Some),
        Prefixed::Absence(x) => form == Form::Not && present is Some && x@ == ir::call(
            vector_store::op(defs, "OpNot"@),
            seq![present->0],
        ),
    }
}

/// What may be there, as a value.
pub open spec fn node_of(v: Option<Value>) -> Option<ir::Node> {
    match v {
        Some(v) => Some(v@),
        None => None,
    }
}

/// Apply a prefix to the operand behind it, and to that alone; `None` for a form that is
/// no prefix.  `present` is the presence of what the operand names, where it is a record
/// or a collection; `not_null` tells that the operand is never absent, `power_follows`
/// that a power stands behind it.
pub fn apply_prefix(
    data: &Data,
    form: Form,
    operand: Value,
    tp: &Type,
    present: Option<Value>,
    not_null: bool,
    power_follows: bool,
    first_pass: bool,
) -> (r: Option<(Prefixed, Option<Warning>)>)
    requires
        data.definitions.len() <= u32::MAX,
    ensures
        r is None <==> operation_of(form) is None,
        r matches Some((_, w)) ==> w == warning_of(
            form,
            operand@,
            tp@,
            not_null,
            power_follows,
            first_pass,
        ),
        r matches Some((p, _)) ==> prefixes(
            data.definitions@,
            form,
            operand@,
            node_of(present),
            p,
        ),
{
    let name: &'static str = match prefix_operation(form) {
        Some(name) => name,
        None => {
            return None;
        },
    };
    let warning: Option<Warning> = match form {
        Form::Not => if redundant_negation(tp, not_null, first_pass) {
            Some(Warning::RedundantNegation)
        } else {
            None
        },
        Form::Minus => if minus_binds_tighter(&operand, power_follows, first_pass) {
            Some(Warning::MinusBindsTighter)
        } else {
            None
        },
        _ => None,
    };
    match (form, present) {
        (Form::Not, Some(x)) => Some((Prefixed::Absence(negated_presence(data, x).0), warning)),
        _ => Some((Prefixed::Operation(name, operand), warning)),
    }
}

/// Where a bracketed literal is built: the place it is built at, the variable it is built
/// in where it is the first thing assigned to one, and the type it is built against.
#[derive(Debug)]
pub struct LiteralPlace {
    pub val: Value,
    pub lhs: Option<u16>,
    pub tp: Type,
}

/// Whether `p` is where a bracketed literal at `val` is built.
pub open spec fn placed_at(
    known: Seq<ChainTarget>,
    context: u32,
    val: ir::Node,
    dest: types::Ty,
    expected: types::Ty,
    hint: types::Ty,
    empty: bool,
    p: LiteralPlace,
) -> bool {
    let apart = receives(known, context, val);
    &&& p.val@ == if apart {
        ir::leaf(ir::Head::Null)
    } else {
        val
    }
    &&& p.lhs == match val.head {
        ir::Head::Var(v) => if apart {
            None
        } else {
            Some(v)
        },
        _ => None,
    }
    &&& p.tp@ == literal_type(dest, expected, hint, empty, apart)
}

/// Where a bracketed literal at `val` is built: one that is known to have methods behind
/// it is built apart from the variable, and against no type of its place.
pub fn literal_place(
    known: &Vec<ChainTarget>,
    context: u32,
    val: &Value,
    dest: &Type,
    expected: &Type,
    hint: &Type,
    empty: bool,
) -> (p: LiteralPlace)
    ensures
        placed_at(known@, context, val@, dest@, expected@, hint@, empty, p),
{
    proof {
        ir::shape(*val);
    }
    let apart: bool = known_receiver(known, context, val);
    let lhs: Option<u16> = match val {
        Value::Var(v) => if apart {
            None
        } else {
            Some(*v)
        },
        _ => None,
    };
    let place: Value = if apart {
        Value::Null
    } else {
        val.copy()
    };
    LiteralPlace {
        val: place,
        lhs,
        tp: find_literal_type(dest, expected, hint, empty, apart),
    }
}

/// The variables, the known receivers, the code and the type of a literal that was built
/// in variable `lhs`, once it is seen whether methods follow.
pub open spec fn ended_literal(
    f: data::FnView,
    known: Seq<ChainTarget>,
    context: u32,
    lhs: Option<u16>,
    val: ir::Node,
    t: types::Ty,
    method_follows: bool,
) -> (data::FnView, Seq<ChainTarget>, ir::Node, types::Ty) {
    match lhs {
        Some(v) if method_follows => {
            let (g, n, u) = received(f, val, v);
            let target = ChainTarget { context, var: v };
            let now = if known.contains(target) {
                known
            } else {
                known.push(target)
            };
            (g, now, n, u)
        },
        _ => (f, known, val, t),
    }
}

/// The literal that was built at a place, once it is seen whether methods follow: one
/// that was built in variable `lhs` and has methods behind it moves to a variable of its
/// own, and the next pass knows.
pub fn literal_done(
    vars: &mut Function,
    known: &mut Vec<ChainTarget>,
    context: u32,
    lhs: Option<u16>,
    val: Value,
    tp: Type,
    method_follows: bool,
) -> (r: (Value, Type))
    requires
        lhs matches Some(v) ==> v < old(vars).variables.len() < u16::MAX,
    ensures
        (final(vars)@, final(known)@, r.0@, r.1@) == ended_literal(
            old(vars)@,
            old(known)@,
            context,
            lhs,
            val@,
            tp@,
            method_follows,
        ),
{
    match lhs {
        Some(v) => if method_follows {
            note_receiver(known, context, v);
            literal_receiver(vars, &val, v)
        } else {
            (val, tp)
        },
        None => (val, tp),
    }
}

/// What stands in parentheses: a value or a tuple, with the errors it has.
pub struct Parenthesised {
    pub value: Value,
    pub tp: Type,
    /// A tuple of fewer than two members.
    pub too_short: bool,
    /// A method behind a concatenation that leaves no value.
    pub misses_value: bool,
}

/// Whether `r` is what the values in parentheses come to, and the stored types and the
/// variables are as they are then.
pub open spec fn closes(
    defs: Seq<Definition>,
    stores: Stores,
    stores_now: Stores,
    f: data::FnView,
    g: data::FnView,
    values: Seq<ir::Node>,
    ts: Seq<types::Ty>,
    comma: bool,
    target: bool,
    method_follows: bool,
    first_pass: bool,
    r: Parenthesised,
) -> bool {
    let us = tuples::unrewritten_all(ts);
    &&& r.too_short == (comma && values.len() < 2)
    &&& r.misses_value == (!comma && !first_pass && method_follows && misses_value(
        values[0],
        ts[0],
    ))
    &&& if !comma {
        &&& r.value@ == values[0]
        &&& r.tp@ == ts[0]
        &&& stores_now == stores
        &&& g == f
    } else if target || first_pass {
        &&& r.value@ == (ir::Node { head: ir::Head::Tuple, kids: values })
        &&& r.tp@ == types::Ty::Tuple(us)
        &&& stores_now == stores
        &&& g == f
    } else {
        let (m, vs, own) = tuples::built_members(
            defs,
            stores,
            tuples::Made { types: stores@, vars: f },
            values,
            us,
            ts.len() as int,
        );
        &&& r.value@ == (ir::Node { head: ir::Head::Tuple, kids: vs })
        &&& r.tp@ == types::Ty::Tuple(own)
        &&& m == (tuples::Made { types: stores_now@, vars: g })
    }
}

/// What the values in parentheses come to: a comma makes them a tuple, which has at least
/// two members.  What a tuple takes from elsewhere is copied, unless it is assigned to.
pub fn parenthesised(
    data: &Data,
    stores: &mut Stores,
    vars: &mut Function,
    values: Vec<Value>,
    ts: Vec<Type>,
    comma: bool,
    target: bool,
    method_follows: bool,
    first_pass: bool,
) -> (r: Parenthesised)
    requires
        data.definitions.len() <= u32::MAX,
        old(stores).types.len() <= u16::MAX,
        tuples::laid_out(data.definitions@, *old(stores)),
        values.len() == ts.len(),
        comma || values.len() == 1,
        old(vars).variables.len() + tuples::needed_by(
            tuples::unrewritten_all(types::type_views(ts@)),
            ts.len() as int,
        ) <= u16::MAX,
    ensures
        closes(
            data.definitions@,
            *old(stores),
            *final(stores),
            old(vars)@,
            final(vars)@,
            ir::views(values@),
            types::type_views(ts@),
            comma,
            target,
            method_follows,
            first_pass,
            r,
        ),
{
    if comma {
        let too_short: bool = values.len() < 2;
        let (value, tp): (Value, Type) = tuples::build_tuple(
            data,
            stores,
            vars,
            &values,
            &ts,
            target,
            first_pass,
        );
        return Parenthesised { value, tp, too_short, misses_value: false };
    }
    proof {
        ir::view_at(values@);
        assert(types::type_views(ts@)[0] == ts@[0]@);
    }
    let missed: bool = refuse_method_on_concat(&values[0], &ts[0], method_follows, first_pass);
    Parenthesised {
        value: values[0].copy(),
        tp: ts[0].copy(),
        too_short: false,
        misses_value: missed,
    }
}

/// The token that an operand starts with.  Floating-point numbers are given by their bits.
#[derive(Debug)]
pub enum Token {
    /// A word or a sign of the language.
    Word(String),
    /// A name of the program.
    Name,
    Integer(i32),
    Long(i64),
    Float(u64),
    Single(u32),
    /// A string, as far as its first hole.
    Text,
    Character(i32),
    /// Anything that no operand starts with.
    Other,
}

/// The place of an operand: where its value goes, the type of the destination, what is
/// expected, and what is known of the tokens that follow.
#[derive(Debug)]
pub struct Place {
    pub val: Value,
    pub dest: Type,
    pub expected: Type,
    /// The narrow vector that is expected, where one is.
    pub hint: Type,
    /// Whether the receiver, the destination and what is expected are enumerations.
    pub receiver_enum: bool,
    pub dest_enum: bool,
    pub expected_enum: bool,
    /// The definitions that a string builds a value of, for the two types.
    pub dest_text: u32,
    pub expected_text: u32,
    /// Whether the operand stands in a hole of a string.
    pub in_hole: bool,
    /// Whether `(` follows the token.
    pub paren: bool,
    /// Whether `]` follows the token.
    pub empty: bool,
    /// Whether the parentheses hold a tuple.
    pub tuple: bool,
}

/// What is read next of an operand.
#[derive(Debug)]
pub enum Step {
    /// Nothing: the word is reserved, which is told in the second pass.  With `arguments`
    /// a list in parentheses is read and dropped.
    Refused { tell: bool, arguments: bool },
    /// The operand behind a prefix, without what its place says.
    Operand(Form),
    /// The members in parentheses.  The first is built `apart` from the place, and `hint`
    /// is expected of it; with `aside` nothing else is.
    Members { apart: bool, aside: bool, hint: Option<Type> },
    Block,
    /// The elements of a bracketed literal, which takes what is expected of it.
    Elements(LiteralPlace),
    If,
    Match,
    Lambda,
    /// The name of a function; that it stands behind `fn` is refused.
    FnName,
    /// A lambda in short form, with parameters or without.
    ShortLambda(bool),
    Size,
    TypeName,
    Intrinsic(&'static str),
    /// A variable, a function or a variant, whose variants are looked up there.
    Name(VariantsOf),
    /// The current value.
    Current,
    /// Nothing: the operand is this literal.
    Literal(Value, Type),
    /// The rest of a string that builds a value of a definition; `u32::MAX` for text.
    Text(u32),
    /// Nothing: there is no operand.
    Missing,
}

/// Whether `step` is what the word that an operand starts with leads to.
pub open spec fn word_leads_to(
    defs: Seq<Definition>,
    known: Seq<ChainTarget>,
    context: u32,
    place: Place,
    form: Form,
    first_pass: bool,
    step: Step,
) -> bool {
    match form {
        Form::Reserved => step == Step::Refused { tell: !first_pass, arguments: place.paren },
        Form::Not | Form::Complement | Form::Minus => step == Step::Operand(form),
        Form::Parenthesis => {
            let ms = declared_members(place.dest@, place.expected@);
            match step {
                Step::Members { apart, aside, hint } => {
                    &&& apart == (place.val@.head is Var && place.tuple)
                    &&& aside == seeds_any(ms, ms.len() as int)
                    &&& match hint {
                        Some(t) => member_hint(ms, 0) == Some(t@),
                        None => member_hint(ms, 0) is None,
                    }
                },
                _ => false,
            }
        },
        Form::Block => step is Block,
        Form::Vector => match step {
            Step::Elements(p) => placed_at(
                known,
                context,
                place.val@,
                place.dest@,
                place.expected@,
                place.hint@,
                place.empty,
                p,
            ),
            _ => false,
        },
        Form::If => step is If,
        Form::Match => step is Match,
        Form::Lambda => step is Lambda,
        Form::FnName => step is FnName,
        Form::EmptyLambda => step == Step::ShortLambda(false),
        Form::ShortLambda => step == Step::ShortLambda(true),
        Form::SizeOf => step is Size,
        Form::TypeName => step is TypeName,
        Form::Assert => step matches Step::Intrinsic(name) && name@ == "assert"@,
        Form::Panic => step matches Step::Intrinsic(name) && name@ == "panic"@,
        Form::Variable => step is Current,
        Form::True => literal_is(defs, Literal::Boolean(true), step),
        Form::False => literal_is(defs, Literal::Boolean(false), step),
        Form::Null => literal_is(defs, Literal::Null, step),
        Form::Other => step is Missing,
    }
}

/// Whether `step` is a literal that is read as a whole.
pub open spec fn literal_is(defs: Seq<Definition>, l: Literal, step: Step) -> bool {
    match step {
        Step::Literal(v, t) => (v@, t@) == literal_code(defs, l),
        _ => false,
    }
}

/// Where the variants of a bare name in a place are looked up.
pub open spec fn variants_at(place: Place) -> VariantsOf {
    if place.receiver_enum {
        VariantsOf::Receiver
    } else if place.dest_enum {
        VariantsOf::Destination
    } else if place.expected_enum {
        VariantsOf::Expected
    } else {
        VariantsOf::Receiver
    }
}

/// The definition that a string in a place builds a value of.
pub open spec fn text_at(place: Place) -> u32 {
    if place.dest_text != u32::MAX {
        place.dest_text
    } else if place.in_hole {
        u32::MAX
    } else {
        place.expected_text
    }
}

/// Whether `step` is what the token that an operand starts with leads to.
pub open spec fn leads_to(
    defs: Seq<Definition>,
    known: Seq<ChainTarget>,
    context: u32,
    place: Place,
    token: Token,
    first_pass: bool,
    step: Step,
) -> bool {
    match token {
        Token::Word(w) => word_leads_to(
            defs,
            known,
            context,
            place,
            form_of(w@, place.paren),
            first_pass,
            step,
        ),
        Token::Name => step == Step::Name(variants_at(place)),
        Token::Integer(n) => literal_is(defs, Literal::Integer(n), step),
        Token::Long(n) => literal_is(defs, Literal::Long(n), step),
        Token::Float(bits) => literal_is(defs, Literal::Float(bits), step),
        Token::Single(bits) => literal_is(defs, Literal::Single(bits), step),
        Token::Text => step == Step::Text(text_at(place)),
        Token::Character(n) => literal_is(defs, Literal::Character(n), step),
        Token::Other => step is Missing,
    }
}

/// Whether one of the declared members of a tuple in a place says what a lambda takes.
fn members_seed(dest: &Type, expected: &Type) -> (r: bool)
    ensures
        r == seeds_any(
            declared_members(dest@, expected@),
            declared_members(dest@, expected@).len() as int,
        ),
{
    proof {
        reveal_with_fuel(types::type_views, 2);
        reveal_with_fuel(Type::view, 2);
    }
    match dest.base() {
        Type::Tuple(ms) => any_seeds(ms),
        _ => match expected.base() {
            Type::Tuple(ms) => any_seeds(ms),
            _ => false,
        },
    }
}

fn literal_step(data: &Data, l: Literal) -> (step: Step)
    requires
        data.definitions.len() <= u32::MAX,
    ensures
        literal_is(data.definitions@, l, step),
{
    let (v, t): (Value, Type) = literal_value(data, l);
    Step::Literal(v, t)
}

fn word_step(
    data: &Data,
    known: &Vec<ChainTarget>,
    context: u32,
    place: &Place,
    f: Form,
    first_pass: bool,
) -> (step: Step)
    requires
        data.definitions.len() <= u32::MAX,
    ensures
        word_leads_to(data.definitions@, known@, context, *place, f, first_pass, step),
{
    match f {
        Form::Reserved => Step::Refused { tell: !first_pass, arguments: place.paren },
        Form::Not | Form::Complement | Form::Minus => Step::Operand(f),
        Form::Parenthesis => Step::Members {
            apart: first_member_apart(&place.val, place.tuple),
            aside: members_seed(&place.dest, &place.expected),
            hint: tuple_member_hint(&place.dest, &place.expected, 0),
        },
        Form::Block => Step::Block,
        Form::Vector => Step::Elements(
            literal_place(
                known,
                context,
                &place.val,
                &place.dest,
                &place.expected,
                &place.hint,
                place.empty,
            ),
        ),
        Form::If => Step::If,
        Form::Match => Step::Match,
        Form::Lambda => Step::Lambda,
        Form::FnName => Step::FnName,
        Form::EmptyLambda => Step::ShortLambda(false),
        Form::ShortLambda => Step::ShortLambda(true),
        Form::SizeOf => Step::Size,
        Form::TypeName => Step::TypeName,
        Form::Assert => Step::Intrinsic("assert"),
        Form::Panic => Step::Intrinsic("panic"),
        Form::Variable => Step::Current,
        Form::True => literal_step(data, Literal::Boolean(true)),
        Form::False => literal_step(data, Literal::Boolean(false)),
        Form::Null => literal_step(data, Literal::Null),
        Form::Other => Step::Missing,
    }
}

/// What is read next of an operand, by the token that it starts with and its place.
pub fn single_step(
    data: &Data,
    known: &Vec<ChainTarget>,
    context: u32,
    place: &Place,
    token: &Token,
    first_pass: bool,
) -> (step: Step)
    requires
        data.definitions.len() <= u32::MAX,
    ensures
        leads_to(data.definitions@, known@, context, *place, *token, first_pass, step),
{
    match token {
        Token::Word(w) => word_step(
            data,
            known,
            context,
            place,
            form(w.as_str(), place.paren),
            first_pass,
        ),
        Token::Name => Step::Name(
            variants_of(place.receiver_enum, place.dest_enum, place.expected_enum),
        ),
        Token::Integer(n) => literal_step(data, Literal::Integer(*n)),
        Token::Long(n) => literal_step(data, Literal::Long(*n)),
        Token::Float(bits) => literal_step(data, Literal::Float(*bits)),
        Token::Single(bits) => literal_step(data, Literal::Single(*bits)),
        Token::Text => Step::Text(
            string_target(place.dest_text, place.expected_text, place.in_hole),
        ),
        Token::Character(n) => literal_step(data, Literal::Character(*n)),
        Token::Other => Step::Missing,
    }
}

/// What was read of an operand.
#[derive(Debug)]
pub enum Read {
    Nothing,
    /// The operand of a prefix; the presence of what it names, where it is a record or a
    /// collection; whether it is never absent, and whether a power follows.
    Operand {
        value: Value,
        tp: Type,
        present: Option<Value>,
        not_null: bool,
        power_follows: bool,
    },
    /// What stands in parentheses; whether a comma makes it a tuple, whether it is
    /// assigned to, and whether a method follows.
    Members {
        values: Vec<Value>,
        tps: Vec<Type>,
        comma: bool,
        target: bool,
        method_follows: bool,
    },
    /// A bracketed literal, and whether a method follows.
    Elements { value: Value, tp: Type, method_follows: bool },
    /// Anything else, as a whole.
    Whole(Value, Type),
}

/// What is told of an operand.
#[derive(Clone, Copy, Debug, PartialEq, Eq, Structural)]
pub enum Notice {
    /// The word is reserved.
    Reserved,
    /// A function is named without `fn`.
    FnPrefix,
    /// A tuple has at least two members.
    TooShort,
    /// The concatenation in front of a method has to be assigned first.
    MissesValue,
    Warned(Warning),
}

/// What an operand comes to.
#[derive(Debug)]
pub enum Single {
    Value(Value, Type),
    /// The operation of this name on a value of a type, whose operator is still to be
    /// chosen.
    Operation(&'static str, Value, Type),
}

/// Whether what was read is what the step asks for.
pub open spec fn fits(step: Step, read: Read, f: data::FnView) -> bool {
    match step {
        Step::Refused { .. } | Step::Literal(..) | Step::Missing => read is Nothing,
        Step::Operand(form) => read is Operand && operation_of(form) is Some,
        Step::Members { .. } => match read {
            Read::Members { values, tps, comma, .. } => {
                &&& values.len() == tps.len()
                &&& comma || values.len() == 1
                &&& f.vars.len() + tuples::needed_by(
                    tuples::unrewritten_all(types::type_views(tps@)),
                    tps.len() as int,
                ) <= u16::MAX
            },
            _ => false,
        },
        Step::Elements(p) => read is Elements && (p.lhs matches Some(v) ==> v < f.vars.len()
            < u16::MAX),
        _ => read is Whole,
    }
}

/// Whether an operand comes to `r` and is told `notice`, and the stored types, the
/// variables and the known receivers are as they are then.
pub open spec fn comes_to(
    defs: Seq<Definition>,
    stores: Stores,
    stores_now: Stores,
    f: data::FnView,
    g: data::FnView,
    known: Seq<ChainTarget>,
    known_now: Seq<ChainTarget>,
    context: u32,
    val: ir::Node,
    step: Step,
    read: Read,
    first_pass: bool,
    r: Single,
    notice: Option<Notice>,
) -> bool {
    let unchanged = stores_now == stores && g == f && known_now == known;
    match (step, read) {
        (Step::Refused { tell, .. }, _) => {
            &&& is_value(r, val, types::Ty::Void)
            &&& notice == if tell {
                Some(Notice::Reserved)
            } else {
                None
            }
            &&& unchanged
        },
        (Step::Literal(v, t), _) => is_value(r, v@, t@) && notice is None && unchanged,
        (Step::Missing, _) => is_value(r, val, types::Ty::Unknown(0)) && notice is None
            && unchanged,
        (Step::Operand(form), Read::Operand { value, tp, present, not_null, power_follows }) => {
            &&& match r {
                Single::Operation(name, x, t) => t@ == tp@ && prefixes(
                    defs,
                    form,
                    value@,
                    node_of(present),
                    Prefixed::Operation(name, x),
                ),
                Single::Value(x, t) => t@ == types::Ty::Boolean && prefixes(
                    defs,
                    form,
                    value@,
                    node_of(present),
                    Prefixed::Absence(x),
                ),
            }
            &&& notice == match warning_of(form, value@, tp@, not_null, power_follows, first_pass) {
                Some(w) => Some(Notice::Warned(w)),
                None => None,
            }
            &&& unchanged
        },
        (Step::Members { .. }, Read::Members { values, tps, comma, target, method_follows }) => {
            &&& known_now == known
            &&& match r {
                Single::Value(value, tp) => closes(
                    defs,
                    stores,
                    stores_now,
                    f,
                    g,
                    ir::views(values@),
                    types::type_views(tps@),
                    comma,
                    target,
                    method_follows,
                    first_pass,
                    Parenthesised {
                        value,
                        tp,
                        too_short: notice == Some(Notice::TooShort),
                        misses_value: notice == Some(Notice::MissesValue),
                    },
                ),
                _ => false,
            }
            &&& notice is None || notice == Some(Notice::TooShort) || notice == Some(
                Notice::MissesValue,
            )
        },
        (Step::Elements(p), Read::Elements { value, tp, method_follows }) => {
            &&& stores_now == stores
            &&& notice is None
            &&& match r {
                Single::Value(v, t) => (g, known_now, v@, t@) == ended_literal(
                    f,
                    known,
                    context,
                    p.lhs,
                    value@,
                    tp@,
                    method_follows,
                ),
                _ => false,
            }
        },
        (_, Read::Whole(value, tp)) => {
            &&& is_value(r, value@, tp@)
            &&& notice == if step is FnName {
                Some(Notice::FnPrefix)
            } else {
                None
            }
            &&& unchanged
        },
        _ => false,
    }
}

/// Whether an operand comes to a value of a type.
pub open spec fn is_value(r: Single, n: ir::Node, t: types::Ty) -> bool {
    match r {
        Single::Value(v, u) => v@ == n && u@ == t,
        _ => false,
    }
}

/// What an operand in a place comes to, once what the step asks for is read, and what is
/// told of it.
pub fn parse_single(
    data: &Data,
    stores: &mut Stores,
    vars: &mut Function,
    known: &mut Vec<ChainTarget>,
    context: u32,
    place: &Place,
    step: Step,
    read: Read,
    first_pass: bool,
) -> (r: (Single, Option<Notice>))
    requires
        data.definitions.len() <= u32::MAX,
        old(stores).types.len() <= u16::MAX,
        tuples::laid_out(data.definitions@, *old(stores)),
        fits(step, read, old(vars)@),
    ensures
        comes_to(
            data.definitions@,
            *old(stores),
            *final(stores),
            old(vars)@,
            final(vars)@,
            old(known)@,
            final(known)@,
            context,
            place.val@,
            step,
            read,
            first_pass,
            r.0,
            r.1,
        ),
{
    match (step, read) {
        (Step::Refused { tell, .. }, _) => {
            let notice: Option<Notice> = if tell {
                Some(Notice::Reserved)
            } else {
                None
            };
            (Single::Value(place.val.copy(), Type::Void), notice)
        },
        (Step::Literal(v, t), _) => (Single::Value(v, t), None),
        (Step::Missing, _) => (Single::Value(place.val.copy(), Type::Unknown(0)), None),
        (Step::Operand(form), Read::Operand { value, tp, present, not_null, power_follows }) => {
            match apply_prefix(
                data,
                form,
                value,
                &tp,
                present,
                not_null,
                power_follows,
                first_pass,
            ) {
                Some((p, warning)) => {
                    let notice: Option<Notice> = match warning {
                        Some(w) => Some(Notice::Warned(w)),
                        None => None,
                    };
                    match p {
                        Prefixed::Operation(name, x) => (Single::Operation(name, x, tp), notice),
                        Prefixed::Absence(x) => (Single::Value(x, Type::Boolean), notice),
                    }
                },
                None => (Single::Value(Value::Null, tp), None),
            }
        },
        (Step::Members { .. }, Read::Members { values, tps, comma, target, method_follows }) => {
            let p: Parenthesised = parenthesised(
                data,
                stores,
                vars,
                values,
                tps,
                comma,
                target,
                method_follows,
                first_pass,
            );
            let notice: Option<Notice> = if p.too_short {
                Some(Notice::TooShort)
            } else if p.misses_value {
                Some(Notice::MissesValue)
            } else {
                None
            };
            (Single::Value(p.value, p.tp), notice)
        },
        (Step::Elements(p), Read::Elements { value, tp, method_follows }) => {
            let (v, t): (Value, Type) = literal_done(
                vars,
                known,
                context,
                p.lhs,
                value,
                tp,
                method_follows,
            );
            (Single::Value(v, t), None)
        },
        (Step::FnName, Read::Whole(value, tp)) => (
            Single::Value(value, tp),
            Some(Notice::FnPrefix),
        ),
        (_, Read::Whole(value, tp)) => (Single::Value(value, tp), None),
        _ => (Single::Value(Value::Null, Type::Void), None),
    }
}

} // verus!
