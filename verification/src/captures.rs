//! What closures capture and how it is stored.
//!
//! A closure that writes a captured scalar shares it with the function that holds
//! it through a cell.  The passes here find the captures that a closure writes,
//! queue the scalars among them for boxing, and keep the records of captured values
//! in step with the variables.

use crate::cells;
use crate::data::{self, Attribute, Data, Definition, Function, Variable};
use crate::ir::{self, Value};
use crate::text;
use crate::types::{self, Deps, Type};
use vstd::prelude::*;

verus! {

/// An operator that writes through its first operand.
pub open spec fn writes_first(name: Seq<char>) -> bool {
    ||| text::is_prefix("OpSet"@, name)
    ||| text::is_prefix("OpAppend"@, name)
    ||| text::is_prefix("OpClear"@, name)
    ||| name == "OpInsertVector"@
    ||| name == "OpRemoveVector"@
    ||| name == "OpNewRecord"@
}

/// Whether an operator writes through its first operand.
pub fn op_writes_first_arg(name: &str) -> (r: bool)
    ensures
        r == writes_first(name@),
{
    text::starts_with(name, "OpSet") || text::starts_with(name, "OpAppend") || text::starts_with(
        name,
        "OpClear",
    ) || text::same(name, "OpInsertVector") || text::same(name, "OpRemoveVector") || text::same(
        name,
        "OpNewRecord",
    )
}

/// Whether a call of definition `d` reads a part of its first operand.
pub open spec fn is_getter(defs: Seq<Definition>, d: u32) -> bool {
    d < defs.len() && text::is_prefix("Get"@, defs[d as int].original_name@)
}

fn getter(data: &Data, d: u32) -> (r: bool)
    ensures
        r == is_getter(data.definitions@, d),
{
    (d as usize) < data.definitions.len() && text::starts_with(
        data.definitions[d as usize].original_name.as_str(),
        "Get",
    )
}

/// The variable that a chain of reads starts at.
pub open spec fn root_var(defs: Seq<Definition>, n: ir::Node) -> Option<u16>
    decreases n,
{
    if n.head is Span && n.kids.len() > 0 {
        root_var(defs, n.kids[0])
    } else {
        match n.head {
            ir::Head::Var(v) => Some(v),
            ir::Head::Call(d) => if is_getter(defs, d) && n.kids.len() > 0 {
                root_var(defs, n.kids[0])
            } else {
                None
            },
            _ => None,
        }
    }
}

/// The variable that a chain of reads starts at; `None` when it starts elsewhere.
pub fn accessor_root_var(v: &Value, data: &Data) -> (r: Option<u16>)
    ensures
        r == root_var(data.definitions@, v@),
    decreases v,
{
    proof {
        ir::shape(*v);
    }
    match v {
        Value::Span(_, inner) => {
            assert(v@.kids[0] == inner@);
            accessor_root_var(inner, data)
        },
        Value::Var(x) => Some(*x),
        Value::Call(d, args) => {
            proof {
                ir::view_at(args@);
            }
            if getter(data, *d) && args.len() > 0 {
                assert(decreases_to!(*args => args[0]));
                accessor_root_var(&args[0], data)
            } else {
                None
            }
        },
        _ => None,
    }
}

/// The integer literal that a node is, source positions aside.
pub open spec fn literal(n: ir::Node) -> Option<i32> {
    match ir::unspan(n).head {
        ir::Head::Int(x) => Some(x),
        _ => None,
    }
}

fn literal_of(v: &Value) -> (r: Option<i32>)
    ensures
        r == literal(v@),
{
    match v.unspan() {
        Value::Int(x) => Some(*x),
        _ => None,
    }
}

/// The field of the closure record that a chain of reads starts at, where it
/// starts at the closure parameter.
pub open spec fn capture_field(
    defs: Seq<Definition>,
    n: ir::Node,
    param: Option<u16>,
) -> Option<i32>
    decreases n,
{
    if n.head is Span && n.kids.len() > 0 {
        capture_field(defs, n.kids[0], param)
    } else {
        match n.head {
            ir::Head::Call(d) => if is_getter(defs, d) && n.kids.len() > 0 {
                if is_param(n.kids[0], param) && n.kids.len() > 1 && literal(n.kids[1]) is Some {
                    literal(n.kids[1])
                } else {
                    capture_field(defs, n.kids[0], param)
                }
            } else {
                None
            },
            _ => None,
        }
    }
}

/// Whether a node is the closure parameter.
pub open spec fn is_param(n: ir::Node, param: Option<u16>) -> bool {
    match ir::unspan(n).head {
        ir::Head::Var(v) => Some(v) == param,
        _ => false,
    }
}

fn names_param(v: &Value, param: Option<u16>) -> (r: bool)
    ensures
        r == is_param(v@, param),
{
    match v.unspan() {
        Value::Var(x) => match param {
            Some(p) => *x == p,
            None => false,
        },
        _ => false,
    }
}

/// The field of the closure record that a chain of reads starts at; `None` when it
/// does not start at the closure parameter.
pub fn capture_field_of(v: &Value, param: Option<u16>, data: &Data) -> (r: Option<i32>)
    ensures
        r == capture_field(data.definitions@, v@, param),
    decreases v,
{
    proof {
        ir::shape(*v);
    }
    match v {
        Value::Span(_, inner) => {
            assert(v@.kids[0] == inner@);
            capture_field_of(inner, param, data)
        },
        Value::Call(d, args) => {
            proof {
                ir::view_at(args@);
            }
            if !getter(data, *d) || args.len() == 0 {
                return None;
            }
            if names_param(&args[0], param) && args.len() > 1 {
                match literal_of(&args[1]) {
                    Some(field) => {
                        return Some(field);
                    },
                    None => {},
                }
            }
            assert(decreases_to!(*args => args[0]));
            capture_field_of(&args[0], param, data)
        },
        _ => None,
    }
}

/// What the search for writes reads: the definitions, the variables of the lambda,
/// the captured names, and the closure parameter where there is one.
pub struct Scene {
    pub defs: Seq<Definition>,
    pub vars: Seq<data::VarView>,
    pub names: Seq<Seq<char>>,
    pub param: Option<u16>,
}

/// The names found so far with one more, where it is captured and new.
pub open spec fn marked(e: Scene, name: Seq<char>, out: Seq<Seq<char>>) -> Seq<Seq<char>> {
    if e.names.contains(name) && !out.contains(name) {
        out.push(name)
    } else {
        out
    }
}

/// The names found so far with that of variable `v`.
pub open spec fn marked_var(e: Scene, v: u16, out: Seq<Seq<char>>) -> Seq<Seq<char>> {
    if v < e.vars.len() {
        marked(e, e.vars[v as int].name, out)
    } else {
        out
    }
}

/// The names found so far with that of the capture in field `field`.
pub open spec fn marked_field(e: Scene, field: i32, out: Seq<Seq<char>>) -> Seq<Seq<char>> {
    if 0 <= field < e.names.len() {
        marked(e, e.names[field as int], out)
    } else {
        out
    }
}

/// The names found so far with what a call of a writing operator writes.
pub open spec fn marked_call(e: Scene, args: Seq<ir::Node>, out: Seq<Seq<char>>) -> Seq<Seq<char>> {
    match ir::unspan(args[0]).head {
        ir::Head::Var(v) => if Some(v) == e.param && args.len() > 1 && (literal(
            args[1],
        ) matches Some(field) && 0 <= field < e.names.len()) {
            marked_field(e, literal(args[1])->0, out)
        } else {
            marked_var(e, v, out)
        },
        ir::Head::Call(_) => {
            let rooted = match root_var(e.defs, args[0]) {
                Some(v) => marked_var(e, v, out),
                None => out,
            };
            match capture_field(e.defs, args[0], e.param) {
                Some(field) => marked_field(e, field, rooted),
                None => rooted,
            }
        },
        _ => out,
    }
}

/// The names found so far with what the node itself writes.
pub open spec fn marked_here(e: Scene, n: ir::Node, out: Seq<Seq<char>>) -> Seq<Seq<char>> {
    match n.head {
        ir::Head::Assign(v) => marked_var(e, v, out),
        ir::Head::Call(d) => if d < e.defs.len() && writes_first(e.defs[d as int].name@)
            && n.kids.len() > 0 {
            marked_call(e, n.kids, out)
        } else {
            out
        },
        _ => out,
    }
}

/// The captured names that the code writes, in the order they are found, behind
/// those found before it.
pub open spec fn mutations(e: Scene, n: ir::Node, out: Seq<Seq<char>>) -> Seq<Seq<char>>
    decreases n, 0int,
{
    if n.head is Parallel {
        out
    } else {
        mutations_in(e, n.kids, n.kids.len() as int, marked_here(e, n, out))
    }
}

/// The captured names that the first `k` nodes write.
pub open spec fn mutations_in(
    e: Scene,
    s: Seq<ir::Node>,
    k: int,
    out: Seq<Seq<char>>,
) -> Seq<Seq<char>>
    decreases s, k,
{
    if k <= 0 || k > s.len() {
        out
    } else {
        mutations(e, s[k - 1], mutations_in(e, s, k - 1, out))
    }
}

struct Search<'a> {
    data: &'a Data,
    variables: &'a Function,
    names: &'a Vec<String>,
    param: Option<u16>,
}

impl<'a> Search<'a> {
    spec fn scene(&self) -> Scene {
        Scene {
            defs: self.data.definitions@,
            vars: self.variables@.vars,
            names: text::texts(self.names@),
            param: self.param,
        }
    }

    fn mark(&self, name: &str, out: &mut Vec<String>)
        ensures
            text::texts(final(out)@) == marked(self.scene(), name@, text::texts(old(out)@)),
    {
        if text::contains(self.names, name) && !text::contains(out, name) {
            let ghost was = text::texts(out@);
            out.push(name.to_owned());
            assert(text::texts(out@) =~= was.push(name@));
        }
    }

    fn mark_var(&self, v: u16, out: &mut Vec<String>)
        ensures
            text::texts(final(out)@) == marked_var(self.scene(), v, text::texts(old(out)@)),
    {
        if (v as usize) < self.variables.variables.len() {
            self.mark(self.variables.variables[v as usize].name.as_str(), out);
        }
    }

    fn mark_field(&self, field: i32, out: &mut Vec<String>)
        ensures
            text::texts(final(out)@) == marked_field(self.scene(), field, text::texts(old(out)@)),
    {
        if field >= 0 && (field as usize) < self.names.len() {
            self.mark(self.names[field as usize].as_str(), out);
        }
    }

    fn mark_call(&self, args: &Vec<Value>, out: &mut Vec<String>)
        requires
            args.len() > 0,
        ensures
            text::texts(final(out)@) == marked_call(
                self.scene(),
                ir::views(args@),
                text::texts(old(out)@),
            ),
    {
        proof {
            ir::view_at(args@);
        }
        match args[0].unspan() {
            Value::Var(v) => {
                if names_param(&args[0], self.param) && args.len() > 1 {
                    match literal_of(&args[1]) {
                        Some(field) => {
                            if field >= 0 && (field as usize) < self.names.len() {
                                self.mark_field(field, out);
                                return;
                            }
                        },
                        None => {},
                    }
                }
                self.mark_var(*v, out);
            },
            Value::Call(_, _) => {
                match accessor_root_var(&args[0], self.data) {
                    Some(v) => {
                        self.mark_var(v, out);
                    },
                    None => {},
                }
                match capture_field_of(&args[0], self.param, self.data) {
                    Some(field) => {
                        self.mark_field(field, out);
                    },
                    None => {},
                }
            },
            _ => {},
        }
    }

    fn mark_here(&self, code: &Value, out: &mut Vec<String>)
        ensures
            text::texts(final(out)@) == marked_here(self.scene(), code@, text::texts(old(out)@)),
    {
        proof {
            ir::shape(*code);
        }
        match code {
            Value::Assign(v, _) => {
                self.mark_var(*v, out);
            },
            Value::Call(d, args) => {
                proof {
                    ir::view_at(args@);
                }
                if (*d as usize) < self.data.definitions.len() && op_writes_first_arg(
                    self.data.definitions[*d as usize].name.as_str(),
                ) && args.len() > 0 {
                    self.mark_call(args, out);
                }
            },
            _ => {},
        }
    }

    fn walk_for_mutations(&self, code: &Value, out: &mut Vec<String>)
        ensures
            text::texts(final(out)@) == mutations(self.scene(), code@, text::texts(old(out)@)),
        decreases code,
    {
        proof {
            ir::shape(*code);
        }
        match code {
            Value::Parallel(_) => {
                return;
            },
            _ => {},
        }
        self.mark_here(code, out);
        let kids: Vec<&Value> = code.children();
        let ghost e = self.scene();
        let ghost first = text::texts(out@);
        let mut i: usize = 0;
        while i < kids.len()
            invariant
                i <= kids.len(),
                e == self.scene(),
                kids.len() == code@.kids.len(),
                forall|j: int| 0 <= j < kids.len() ==> (#[trigger] kids@[j])@ == code@.kids[j],
                forall|j: int| 0 <= j < kids.len() ==> decreases_to!(*code => *#[trigger] kids@[j]),
                text::texts(out@) == mutations_in(e, code@.kids, i as int, first),
            decreases kids.len() - i,
        {
            self.walk_for_mutations(kids[i], out);
            i = i + 1;
        }
    }
}

/// The names of the variables of a lambda that may stand for captures: those of
/// the first `k` that are neither the closure parameter, nor work variables, nor
/// arguments.
pub open spec fn placeholder_names(vars: Seq<data::VarView>, k: int) -> Seq<Seq<char>>
    decreases k,
{
    if k <= 0 {
        Seq::empty()
    } else {
        let v = vars[k - 1];
        let before = placeholder_names(vars, k - 1);
        if v.name == "__closure"@ || text::is_prefix("__work"@, v.name) || v.argument {
            before
        } else {
            before.push(v.name)
        }
    }
}

/// The names that a lambda captures: the fields of its closure record, or the
/// placeholders among its variables before there is a record.
pub open spec fn captured(defs: Seq<Definition>, lambda: int) -> Seq<Seq<char>> {
    let def = defs[lambda];
    if def.closure_record == u32::MAX || def.closure_record >= defs.len() {
        placeholder_names(def.variables@.vars, def.variables@.vars.len() as int)
    } else {
        attr_names(defs[def.closure_record as int].attributes@)
    }
}

/// The names of the fields of a list.
pub open spec fn attr_names(attrs: Seq<Attribute>) -> Seq<Seq<char>> {
    Seq::new(attrs.len(), |i: int| attrs[i].name@)
}

/// The first variable from `from` on that is called `name`.
pub open spec fn first_named(vars: Seq<data::VarView>, name: Seq<char>, from: int) -> Option<u16>
    decreases vars.len() - from,
{
    if from < 0 || from >= vars.len() {
        None
    } else if vars[from].name == name {
        Some(from as u16)
    } else {
        first_named(vars, name, from + 1)
    }
}

fn placeholders(vars: &Function) -> (names: Vec<String>)
    ensures
        text::texts(names@) == placeholder_names(vars@.vars, vars@.vars.len() as int),
{
    let mut names: Vec<String> = Vec::new();
    let mut i: usize = 0;
    assert(text::texts(names@) =~= Seq::<Seq<char>>::empty());
    while i < vars.variables.len()
        invariant
            i <= vars.variables.len(),
            text::texts(names@) == placeholder_names(vars@.vars, i as int),
        decreases vars.variables.len() - i,
    {
        let var: &Variable = &vars.variables[i];
        if !(text::same(var.name.as_str(), "__closure") || text::starts_with(
            var.name.as_str(),
            "__work",
        ) || var.argument) {
            let ghost was = text::texts(names@);
            names.push(var.name.clone());
            assert(text::texts(names@) =~= was.push(var.name@));
        }
        i = i + 1;
    }
    names
}

fn field_names(attrs: &Vec<Attribute>) -> (names: Vec<String>)
    ensures
        text::texts(names@) == attr_names(attrs@),
{
    let mut names: Vec<String> = Vec::new();
    let mut i: usize = 0;
    while i < attrs.len()
        invariant
            i <= attrs.len(),
            names.len() == i,
            forall|j: int| 0 <= j < i ==> (#[trigger] names@[j])@ == attrs@[j].name@,
        decreases attrs.len() - i,
    {
        names.push(attrs[i].name.clone());
        i = i + 1;
    }
    assert(text::texts(names@) =~= attr_names(attrs@));
    names
}

fn find_named(vars: &Function, name: &str) -> (v: Option<u16>)
    requires
        vars.variables.len() <= u16::MAX,
    ensures
        v == first_named(vars@.vars, name@, 0),
{
    let mut i: usize = 0;
    while i < vars.variables.len()
        invariant
            i <= vars.variables.len() <= u16::MAX,
            first_named(vars@.vars, name@, 0) == first_named(vars@.vars, name@, i as int),
        decreases vars.variables.len() - i,
    {
        if text::same(vars.variables[i].name.as_str(), name) {
            return Some(i as u16);
        }
        i = i + 1;
    }
    None
}

/// What the search for the writes of a lambda reads.
pub open spec fn scene_of(defs: Seq<Definition>, lambda: int) -> Scene {
    Scene {
        defs,
        vars: defs[lambda].variables@.vars,
        names: captured(defs, lambda),
        param: first_named(defs[lambda].variables@.vars, "__closure"@, 0),
    }
}

/// The captures that the body of a lambda writes.
pub open spec fn mutated(defs: Seq<Definition>, lambda: int) -> Seq<Seq<char>> {
    mutations(scene_of(defs, lambda), defs[lambda].code@, Seq::empty())
}

fn find_mutated(data: &Data, lambda: u32) -> (names: Option<Vec<String>>)
    requires
        lambda < data.definitions.len(),
        data.definitions@[lambda as int].variables.variables.len() <= u16::MAX,
    ensures
        match names {
            Some(found) => captured(data.definitions@, lambda as int).len() > 0 && text::texts(
                found@,
            ) == mutated(data.definitions@, lambda as int),
            None => captured(data.definitions@, lambda as int).len() == 0,
        },
{
    let def: &Definition = &data.definitions[lambda as usize];
    let record: u32 = def.closure_record;
    let names: Vec<String> = if record == u32::MAX || (record as usize) >= data.definitions.len() {
        placeholders(&def.variables)
    } else {
        field_names(&data.definitions[record as usize].attributes)
    };
    assert(text::texts(names@).len() == names.len());
    if names.len() == 0 {
        return None;
    }
    let search = Search {
        data,
        variables: &def.variables,
        names: &names,
        param: find_named(&def.variables, "__closure"),
    };
    let mut out: Vec<String> = Vec::new();
    assert(text::texts(out@) =~= Seq::<Seq<char>>::empty());
    search.walk_for_mutations(&def.code, &mut out);
    Some(out)
}

/// Note on a lambda which of its captures it writes.  A lambda that captures
/// nothing is left as it is.
pub fn collect_mutated_captures(data: &mut Data, lambda: u32)
    requires
        lambda < old(data).definitions.len(),
        old(data).definitions@[lambda as int].variables.variables.len() <= u16::MAX,
    ensures
        final(data).definitions.len() == old(data).definitions.len(),
        forall|d: int|
            0 <= d < old(data).definitions.len() ==> #[trigger] final(data).definitions@[d] == (
            Definition {
                mutated_captures: final(data).definitions@[d].mutated_captures,
                ..old(data).definitions@[d]
            }),
        forall|d: int|
            0 <= d < old(data).definitions.len() && d != lambda
                ==> #[trigger] final(data).definitions@[d] == old(data).definitions@[d],
        captured(old(data).definitions@, lambda as int).len() == 0 ==> final(data).definitions@
            == old(data).definitions@,
        captured(old(data).definitions@, lambda as int).len() > 0 ==> text::texts(
            final(data).definitions@[lambda as int].mutated_captures@,
        ) == mutated(old(data).definitions@, lambda as int),
{
    match find_mutated(data, lambda) {
        Some(found) => {
            data.definitions[lambda as usize].mutated_captures = found;
        },
        None => {},
    }
}

/// Every name that the search finds is captured, and none is found twice.
pub proof fn mutations_are_captured_and_distinct(e: Scene, n: ir::Node, out: Seq<Seq<char>>)
    requires
        out.no_duplicates(),
        forall|i: int| 0 <= i < out.len() ==> e.names.contains(#[trigger] out[i]),
    ensures
        mutations(e, n, out).no_duplicates(),
        forall|i: int|
            0 <= i < mutations(e, n, out).len() ==> e.names.contains(
                #[trigger] mutations(e, n, out)[i],
            ),
        out.len() <= mutations(e, n, out).len(),
        mutations(e, n, out).take(out.len() as int) == out,
    decreases n, 0int,
{
    if n.head is Parallel {
        assert(out.take(out.len() as int) =~= out);
    } else {
        let here = marked_here(e, n, out);
        assert(here.no_duplicates() && out.len() <= here.len() && here.take(out.len() as int) == out
            && forall|i: int| 0 <= i < here.len() ==> e.names.contains(#[trigger] here[i])) by {
            marks_are_captured_and_distinct(e, n, out);
        }
        mutations_are_captured_and_distinct_in(e, n.kids, n.kids.len() as int, here);
        assert(mutations(e, n, out).take(out.len() as int) =~= here.take(here.len() as int).take(
            out.len() as int,
        ));
    }
}

/// What a list of names gains keeps it captured and distinct.
pub open spec fn grows(e: Scene, before: Seq<Seq<char>>, after: Seq<Seq<char>>) -> bool {
    &&& after.no_duplicates()
    &&& forall|i: int| 0 <= i < after.len() ==> e.names.contains(#[trigger] after[i])
    &&& before.len() <= after.len()
    &&& after.take(before.len() as int) == before
}

proof fn a_mark_grows(e: Scene, name: Seq<char>, out: Seq<Seq<char>>)
    requires
        grows(e, out, out),
    ensures
        grows(e, out, marked(e, name, out)),
{
    let after = marked(e, name, out);
    assert(after.take(out.len() as int) =~= out);
}

proof fn growing_twice(e: Scene, a: Seq<Seq<char>>, b: Seq<Seq<char>>, c: Seq<Seq<char>>)
    requires
        grows(e, a, b),
        grows(e, b, c),
    ensures
        grows(e, a, c),
{
    assert(c.take(a.len() as int) =~= c.take(b.len() as int).take(a.len() as int));
}

proof fn growing_stays(e: Scene, a: Seq<Seq<char>>, b: Seq<Seq<char>>)
    requires
        grows(e, a, b),
    ensures
        grows(e, b, b),
{
    assert(b.take(b.len() as int) =~= b);
}

proof fn marks_are_captured_and_distinct(e: Scene, n: ir::Node, out: Seq<Seq<char>>)
    requires
        out.no_duplicates(),
        forall|i: int| 0 <= i < out.len() ==> e.names.contains(#[trigger] out[i]),
    ensures
        grows(e, out, marked_here(e, n, out)),
{
    assert(out.take(out.len() as int) =~= out);
    match n.head {
        ir::Head::Assign(v) => {
            if v < e.vars.len() {
                a_mark_grows(e, e.vars[v as int].name, out);
            }
        },
        ir::Head::Call(d) => {
            if n.kids.len() > 0 {
                match ir::unspan(n.kids[0]).head {
                    ir::Head::Var(v) => {
                        if v < e.vars.len() {
                            a_mark_grows(e, e.vars[v as int].name, out);
                        }
                        if n.kids.len() > 1 {
                            match literal(n.kids[1]) {
                                Some(f) => {
                                    if 0 <= f < e.names.len() {
                                        a_mark_grows(e, e.names[f as int], out);
                                    }
                                },
                                None => {},
                            }
                        }
                    },
                    ir::Head::Call(_) => {
                        let rooted = match root_var(e.defs, n.kids[0]) {
                            Some(v) => marked_var(e, v, out),
                            None => out,
                        };
                        match root_var(e.defs, n.kids[0]) {
                            Some(v) => {
                                if v < e.vars.len() {
                                    a_mark_grows(e, e.vars[v as int].name, out);
                                }
                            },
                            None => {},
                        }
                        growing_stays(e, out, rooted);
                        match capture_field(e.defs, n.kids[0], e.param) {
                            Some(f) => {
                                if 0 <= f < e.names.len() {
                                    a_mark_grows(e, e.names[f as int], rooted);
                                    growing_twice(
                                        e,
                                        out,
                                        rooted,
                                        marked(e, e.names[f as int], rooted),
                                    );
                                }
                            },
                            None => {},
                        }
                    },
                    _ => {},
                }
            }
        },
        _ => {},
    }
}

proof fn mutations_are_captured_and_distinct_in(
    e: Scene,
    s: Seq<ir::Node>,
    k: int,
    out: Seq<Seq<char>>,
)
    requires
        0 <= k <= s.len(),
        out.no_duplicates(),
        forall|i: int| 0 <= i < out.len() ==> e.names.contains(#[trigger] out[i]),
    ensures
        grows(e, out, mutations_in(e, s, k, out)),
    decreases s, k,
{
    if k > 0 {
        mutations_are_captured_and_distinct_in(e, s, k - 1, out);
        let before = mutations_in(e, s, k - 1, out);
        mutations_are_captured_and_distinct(e, s[k - 1], before);
        growing_twice(e, out, before, mutations_in(e, s, k, out));
    } else {
        assert(out.take(out.len() as int) =~= out);
    }
}

/// A captured variable: its name and its type.
#[derive(Debug)]
pub struct Capture {
    pub name: String,
    pub tp: Type,
}

/// The captures of a list as values.
pub open spec fn capture_views(s: Seq<Capture>) -> Seq<(Seq<char>, types::Ty)> {
    Seq::new(s.len(), |i: int| (s[i].name@, s[i].tp@))
}

/// The definition in whose frame a captured variable lives.
#[derive(Debug)]
pub struct Owner {
    pub name: String,
    pub def: u32,
}

/// The definition that the first of the owners from `from` on names for a variable;
/// `default` when there is none.
pub open spec fn owner_from(owners: Seq<Owner>, name: Seq<char>, from: int, default: u32) -> u32
    decreases owners.len() - from,
{
    if from < 0 || from >= owners.len() {
        default
    } else if owners[from].name@ == name {
        owners[from].def
    } else {
        owner_from(owners, name, from + 1, default)
    }
}

fn owner_of(owners: &Vec<Owner>, name: &str, default: u32) -> (d: u32)
    ensures
        d == owner_from(owners@, name@, 0, default),
{
    let mut i: usize = 0;
    while i < owners.len()
        invariant
            i <= owners.len(),
            owner_from(owners@, name@, 0, default) == owner_from(
                owners@,
                name@,
                i as int,
                default,
            ),
        decreases owners.len() - i,
    {
        if text::same(owners[i].name.as_str(), name) {
            return owners[i].def;
        }
        i = i + 1;
    }
    default
}

/// The type of the first capture from `from` on that is called `name`.
pub open spec fn capture_type(
    captures: Seq<(Seq<char>, types::Ty)>,
    name: Seq<char>,
    from: int,
) -> Option<types::Ty>
    decreases captures.len() - from,
{
    if from < 0 || from >= captures.len() {
        None
    } else if captures[from].0 == name {
        Some(captures[from].1)
    } else {
        capture_type(captures, name, from + 1)
    }
}

/// The type of the capture called `name`.
pub fn find_capture<'a>(captures: &'a Vec<Capture>, name: &str) -> (tp: Option<&'a Type>)
    ensures
        match tp {
            Some(t) => capture_type(capture_views(captures@), name@, 0) == Some(t@),
            None => capture_type(capture_views(captures@), name@, 0) is None,
        },
{
    let mut i: usize = 0;
    while i < captures.len()
        invariant
            i <= captures.len(),
            capture_type(capture_views(captures@), name@, 0) == capture_type(
                capture_views(captures@),
                name@,
                i as int,
            ),
        decreases captures.len() - i,
    {
        if text::same(captures[i].name.as_str(), name) {
            return Some(&captures[i].tp);
        }
        i = i + 1;
    }
    None
}

/// The captures that are boxed when a closure writes them: the scalars and text,
/// absent or not.
pub open spec fn boxable(t: types::Ty) -> bool {
    match types::base(t) {
        types::Ty::Integer(_)
        | types::Ty::Float
        | types::Ty::Single
        | types::Ty::Boolean
        | types::Ty::Character
        | types::Ty::Text(_) => true,
        types::Ty::Enum(_, fields, _) => !fields,
        _ => false,
    }
}

fn is_boxable(tp: &Type) -> (r: bool)
    ensures
        r == boxable(tp@),
{
    match tp.base() {
        Type::Integer(_)
        | Type::Float
        | Type::Single
        | Type::Boolean
        | Type::Character
        | Type::Text(_) => true,
        Type::Enum(_, fields, _) => !*fields,
        _ => false,
    }
}

/// The names that each definition boxes.
pub open spec fn boxes(defs: Seq<Definition>) -> Seq<Seq<Seq<char>>> {
    Seq::new(defs.len(), |d: int| text::texts(defs[d].scalars_to_box@))
}

/// The boxed names of every definition with one more name that a closure writes:
/// where it is a captured scalar, the definition that owns it boxes it, once.
pub open spec fn queued(
    all: Seq<Seq<Seq<char>>>,
    name: Seq<char>,
    captures: Seq<(Seq<char>, types::Ty)>,
    owner: u32,
) -> Seq<Seq<Seq<char>>> {
    match capture_type(captures, name, 0) {
        Some(t) => if owner < all.len() && boxable(t) && !all[owner as int].contains(name) {
            all.update(owner as int, all[owner as int].push(name))
        } else {
            all
        },
        None => all,
    }
}

/// The boxed names of every definition with the first `k` names that a closure
/// writes.
pub open spec fn queued_all(
    all: Seq<Seq<Seq<char>>>,
    names: Seq<Seq<char>>,
    captures: Seq<(Seq<char>, types::Ty)>,
    owners: Seq<Owner>,
    parent: u32,
    k: int,
) -> Seq<Seq<Seq<char>>>
    decreases k,
{
    if k <= 0 {
        all
    } else {
        queued(
            queued_all(all, names, captures, owners, parent, k - 1),
            names[k - 1],
            captures,
            owner_from(owners, names[k - 1], 0, parent),
        )
    }
}

/// Whether two lists of definitions differ in their boxed names alone.
pub open spec fn same_but_boxes(a: Seq<Definition>, b: Seq<Definition>) -> bool {
    &&& a.len() == b.len()
    &&& forall|d: int|
        0 <= d < a.len() ==> #[trigger] b[d] == (Definition {
            scalars_to_box: b[d].scalars_to_box,
            ..a[d]
        })
}

fn push_box(data: &mut Data, d: u32, name: &str)
    requires
        d < old(data).definitions.len(),
    ensures
        same_but_boxes(old(data).definitions@, final(data).definitions@),
        boxes(final(data).definitions@) == boxes(old(data).definitions@).update(
            d as int,
            text::texts(old(data).definitions@[d as int].scalars_to_box@).push(name@),
        ),
{
    let ghost was = data.definitions@;
    let ghost names = data.definitions@[d as int].scalars_to_box@;
    data.definitions[d as usize].scalars_to_box.push(name.to_owned());
    assert(text::texts(data.definitions@[d as int].scalars_to_box@) =~= text::texts(names).push(
        name@,
    ));
    assert(boxes(data.definitions@) =~= boxes(was).update(d as int, text::texts(names).push(name@)));
}

/// The same names again.
pub fn copy_names(names: &Vec<String>) -> (out: Vec<String>)
    ensures
        text::texts(out@) == text::texts(names@),
        out.len() == names.len(),
{
    let mut out: Vec<String> = Vec::new();
    let mut i: usize = 0;
    while i < names.len()
        invariant
            i <= names.len(),
            out.len() == i,
            forall|j: int| 0 <= j < i ==> (#[trigger] out@[j])@ == names@[j]@,
        decreases names.len() - i,
    {
        out.push(names[i].clone());
        i = i + 1;
    }
    assert(text::texts(out@) =~= text::texts(names@));
    out
}

/// Queue the captured scalars that a lambda writes for boxing in the definitions
/// that own them.
pub fn accumulate_scalars_to_box(
    data: &mut Data,
    parent: u32,
    lambda: u32,
    captures: &Vec<Capture>,
    owners: &Vec<Owner>,
)
    requires
        lambda < old(data).definitions.len(),
    ensures
        same_but_boxes(old(data).definitions@, final(data).definitions@),
        boxes(final(data).definitions@) == if parent < old(data).definitions.len() {
            let names = text::texts(old(data).definitions@[lambda as int].mutated_captures@);
            queued_all(
                boxes(old(data).definitions@),
                names,
                capture_views(captures@),
                owners@,
                parent,
                names.len() as int,
            )
        } else {
            boxes(old(data).definitions@)
        },
{
    if parent as usize >= data.definitions.len() {
        return;
    }
    let ghost first = data.definitions@;
    let names: Vec<String> = copy_names(&data.definitions[lambda as usize].mutated_captures);
    let ghost texts = text::texts(names@);
    let mut i: usize = 0;
    while i < names.len()
        invariant
            i <= names.len(),
            texts == text::texts(names@),
            parent < first.len(),
            same_but_boxes(first, data.definitions@),
            boxes(data.definitions@) == queued_all(
                boxes(first),
                texts,
                capture_views(captures@),
                owners@,
                parent,
                i as int,
            ),
        decreases names.len() - i,
    {
        let name: &str = names[i].as_str();
        assert(name@ == texts[i as int]);
        let owner: u32 = owner_of(owners, name, parent);
        if (owner as usize) < data.definitions.len() {
            match find_capture(captures, name) {
                Some(tp) => {
                    if is_boxable(tp) && !text::contains(
                        &data.definitions[owner as usize].scalars_to_box,
                        name,
                    ) {
                        push_box(data, owner, name);
                    }
                },
                None => {},
            }
        }
        i = i + 1;
    }
}

/// The type of a capture as the closure record holds it for now: a scalar that its
/// owner boxes is a cell.
pub open spec fn boxed_type(
    defs: Seq<Definition>,
    name: Seq<char>,
    t: types::Ty,
    owner: u32,
) -> types::Ty {
    if owner < defs.len() && text::texts(defs[owner as int].scalars_to_box@).contains(name) {
        cell_type(defs, t)
    } else {
        t
    }
}

/// The cell of a scalar, where the cell is defined; any other type as it is.
pub open spec fn cell_type(defs: Seq<Definition>, t: types::Ty) -> types::Ty {
    match cells::cell_name(t, defs) {
        Some(name) => if data::def_from(defs, name, 0) != u32::MAX {
            types::Ty::Reference(data::def_from(defs, name, 0), types::no_deps())
        } else {
            t
        },
        None => t,
    }
}

/// The cell of a scalar, where the cell is defined; any other type as it is.
pub fn to_cell(data: &Data, tp: &Type) -> (out: Type)
    requires
        data.definitions.len() <= u32::MAX,
    ensures
        out@ == cell_type(data.definitions@, tp@),
{
    match cells::cell_struct_name(tp, data) {
        Some(name) => {
            let d: u32 = data.def_nr(name.as_str());
            if d != u32::MAX {
                Type::Reference(d, Deps::none())
            } else {
                tp.copy()
            }
        },
        None => tp.copy(),
    }
}

/// The captures with those that their owners box as cells.
pub open spec fn boxed_captures(
    defs: Seq<Definition>,
    captures: Seq<(Seq<char>, types::Ty)>,
    owners: Seq<Owner>,
    outer: u32,
) -> Seq<(Seq<char>, types::Ty)> {
    if outer < defs.len() {
        Seq::new(
            captures.len(),
            |i: int|
                (
                    captures[i].0,
                    boxed_type(
                        defs,
                        captures[i].0,
                        captures[i].1,
                        owner_from(owners, captures[i].0, 0, outer),
                    ),
                ),
        )
    } else {
        captures
    }
}

/// Give the captures that their owners box the types of their cells.
pub fn box_captured_names_for_outer_scalars(
    captures: &mut Vec<Capture>,
    data: &Data,
    outer: u32,
    owners: &Vec<Owner>,
)
    requires
        data.definitions.len() <= u32::MAX,
    ensures
        capture_views(final(captures)@) == boxed_captures(
            data.definitions@,
            capture_views(old(captures)@),
            owners@,
            outer,
        ),
{
    if outer as usize >= data.definitions.len() {
        return;
    }
    let ghost first = capture_views(captures@);
    let ghost want = boxed_captures(data.definitions@, first, owners@, outer);
    let mut i: usize = 0;
    while i < captures.len()
        invariant
            i <= captures.len(),
            outer < data.definitions.len() <= u32::MAX,
            captures.len() == first.len(),
            want == boxed_captures(data.definitions@, first, owners@, outer),
            forall|j: int|
                0 <= j < i ==> (#[trigger] capture_views(captures@)[j]) == want[j],
            forall|j: int|
                i <= j < captures.len() ==> (#[trigger] capture_views(captures@)[j]) == first[j],
        decreases captures.len() - i,
    {
        let ghost before = capture_views(captures@);
        assert(before[i as int] == first[i as int]);
        let owner: u32 = owner_of(owners, captures[i].name.as_str(), outer);
        if (owner as usize) < data.definitions.len() && text::contains(
            &data.definitions[owner as usize].scalars_to_box,
            captures[i].name.as_str(),
        ) {
            let tp: Type = to_cell(data, &captures[i].tp);
            captures[i].tp = tp;
        }
        assert(forall|j: int|
            0 <= j < captures.len() && j != i ==> (#[trigger] capture_views(captures@)[j])
                == before[j]);
        i = i + 1;
    }
    assert(capture_views(captures@) =~= want);
}

/// Whether no definition boxes a name twice.
pub open spec fn boxed_once(all: Seq<Seq<Seq<char>>>) -> bool {
    forall|d: int| 0 <= d < all.len() ==> (#[trigger] all[d]).no_duplicates()
}

/// However many closures write a name, the definition that owns it boxes it once.
pub proof fn a_name_is_boxed_once(
    all: Seq<Seq<Seq<char>>>,
    names: Seq<Seq<char>>,
    captures: Seq<(Seq<char>, types::Ty)>,
    owners: Seq<Owner>,
    parent: u32,
    k: int,
)
    requires
        boxed_once(all),
        0 <= k <= names.len(),
    ensures
        boxed_once(queued_all(all, names, captures, owners, parent, k)),
        queued_all(all, names, captures, owners, parent, k).len() == all.len(),
    decreases k,
{
    if k > 0 {
        a_name_is_boxed_once(all, names, captures, owners, parent, k - 1);
        let before = queued_all(all, names, captures, owners, parent, k - 1);
        let now = queued_all(all, names, captures, owners, parent, k);
        let owner = owner_from(owners, names[k - 1], 0, parent);
        assert forall|d: int| 0 <= d < now.len() implies (#[trigger] now[d]).no_duplicates() by {
            assert(before[d].no_duplicates());
            if now[d] != before[d] {
                assert(d == owner);
                assert(now[d] == before[d].push(names[k - 1]));
            }
        }
    }
}

} // verus!
