//! The cells and records that closures are made of.

use crate::captures::{self, Capture};
use crate::cells;
use crate::data::{self, Attribute, Data, DefType, Definition, Function, Variable};
use crate::text;
use crate::types::{self, Deps, Type};
use vstd::prelude::*;

verus! {

/// The names of a list of names and types.
pub open spec fn firsts(s: Seq<(Seq<char>, types::Ty)>) -> Seq<Seq<char>> {
    Seq::new(s.len(), |i: int| s[i].0)
}

/// The cells that the first `k` captures need and that are not defined yet: the
/// name of each and the type of what it holds.
pub open spec fn missing_cells(
    defs: Seq<Definition>,
    captured: Seq<(Seq<char>, types::Ty)>,
    mutated: Seq<Seq<char>>,
    k: int,
) -> Seq<(Seq<char>, types::Ty)>
    decreases k,
{
    if k <= 0 {
        Seq::empty()
    } else {
        let before = missing_cells(defs, captured, mutated, k - 1);
        let (name, t) = captured[k - 1];
        match cells::cell_name(t, defs) {
            Some(cell) => if mutated.contains(name) && data::def_from(defs, cell, 0) == u32::MAX
                && !firsts(before).contains(cell) {
                before.push((cell, cells::value_type(t)))
            } else {
                before
            },
            None => before,
        }
    }
}

/// A cell definition: a record of one field that may be absent exactly where its
/// type says so.
pub open spec fn is_cell(def: Definition, name: Seq<char>, t: types::Ty) -> bool {
    &&& data::fresh_def(def, name, DefType::Struct)
    &&& data::attr_views(def.attributes@) == seq![
        data::AttrView {
            name: "value"@,
            typedef: t,
            hidden: false,
            nullable: types::is_optional(t),
            work_buffer: false,
        },
    ]
}

fn make_cell(name: &str, tp: Type) -> (def: Definition)
    ensures
        is_cell(def, name@, tp@),
{
    let mut def: Definition = Definition::new(name, DefType::Struct);
    let nullable: bool = tp.is_optional();
    let ghost t = tp@;
    def.attributes.push(
        Attribute {
            name: "value".to_owned(),
            typedef: tp,
            hidden: false,
            nullable,
            work_buffer: false,
        },
    );
    assert(data::attr_views(def.attributes@) =~= seq![
        data::AttrView {
            name: "value"@,
            typedef: t,
            hidden: false,
            nullable: types::is_optional(t),
            work_buffer: false,
        },
    ]);
    def
}

fn find_missing(data: &Data, captured: &Vec<Capture>, mutated: &Vec<String>) -> (out: Vec<Capture>)
    requires
        data.definitions.len() <= u32::MAX,
    ensures
        captures::capture_views(out@) == missing_cells(
            data.definitions@,
            captures::capture_views(captured@),
            text::texts(mutated@),
            captured.len() as int,
        ),
        out.len() <= captured.len(),
{
    let ghost defs = data.definitions@;
    let ghost all = captures::capture_views(captured@);
    let ghost names = text::texts(mutated@);
    let mut out: Vec<Capture> = Vec::new();
    let mut found: Vec<String> = Vec::new();
    let mut i: usize = 0;
    assert(captures::capture_views(out@) =~= Seq::<(Seq<char>, types::Ty)>::empty());
    assert(text::texts(found@) =~= firsts(captures::capture_views(out@)));
    while i < captured.len()
        invariant
            i <= captured.len(),
            data.definitions.len() <= u32::MAX,
            defs == data.definitions@,
            all == captures::capture_views(captured@),
            names == text::texts(mutated@),
            out.len() <= i,
            captures::capture_views(out@) == missing_cells(defs, all, names, i as int),
            text::texts(found@) == firsts(captures::capture_views(out@)),
        decreases captured.len() - i,
    {
        let c: &Capture = &captured[i];
        assert(all[i as int] == (c.name@, c.tp@));
        match cells::cell_struct_name(&c.tp, data) {
            Some(cell) => {
                if text::contains(mutated, c.name.as_str()) && data.def_nr(cell.as_str())
                    == u32::MAX && !text::contains(&found, cell.as_str()) {
                    let ghost before = captures::capture_views(out@);
                    let ghost listed = text::texts(found@);
                    let tp: Type = cells::cell_value_type(&c.tp);
                    found.push(cell.clone());
                    assert(text::texts(found@) =~= listed.push(cell@));
                    let ghost entry = (cell@, tp@);
                    out.push(Capture { name: cell, tp });
                    assert(captures::capture_views(out@) =~= before.push(entry));
                    assert(firsts(before.push(entry)) =~= firsts(before).push(cell@));
                }
            },
            None => {},
        }
        i = i + 1;
    }
    out
}

/// Define the cells that the captures a lambda writes need.  They are defined in
/// the first pass over the source.
pub fn synthesize_cell_structs(
    data: &mut Data,
    lambda: u32,
    captured: &Vec<Capture>,
    first_pass: bool,
)
    requires
        lambda < old(data).definitions.len(),
        old(data).definitions.len() <= u32::MAX,
    ensures
        !first_pass ==> *final(data) == *old(data),
        first_pass ==> {
            let defs = old(data).definitions@;
            let new = missing_cells(
                defs,
                captures::capture_views(captured@),
                text::texts(defs[lambda as int].mutated_captures@),
                captured.len() as int,
            );
            &&& final(data).definitions.len() == defs.len() + new.len()
            &&& final(data).definitions@.take(defs.len() as int) == defs
            &&& forall|i: int|
                0 <= i < new.len() ==> is_cell(
                    #[trigger] final(data).definitions@[defs.len() + i],
                    new[i].0,
                    new[i].1,
                )
        },
{
    if !first_pass {
        return;
    }
    let ghost defs = data.definitions@;
    let missing: Vec<Capture> = find_missing(
        data,
        captured,
        &data.definitions[lambda as usize].mutated_captures,
    );
    let ghost new = captures::capture_views(missing@);
    let mut i: usize = 0;
    assert(data.definitions@.take(defs.len() as int) =~= defs);
    while i < missing.len()
        invariant
            i <= missing.len(),
            new == captures::capture_views(missing@),
            data.definitions.len() == defs.len() + i,
            data.definitions@.take(defs.len() as int) == defs,
            forall|j: int|
                0 <= j < i ==> is_cell(
                    #[trigger] data.definitions@[defs.len() + j],
                    new[j].0,
                    new[j].1,
                ),
        decreases missing.len() - i,
    {
        let ghost before = data.definitions@;
        let cell: Definition = make_cell(missing[i].name.as_str(), missing[i].tp.copy());
        data.definitions.push(cell);
        assert(data.definitions@.take(defs.len() as int) =~= before.take(defs.len() as int));
        assert(forall|j: int|
            0 <= j < before.len() ==> #[trigger] data.definitions@[j] == before[j]);
        i = i + 1;
    }
}

/// Why a captured parameter cannot be written from a closure.
#[derive(Clone, Copy, Debug, PartialEq, Eq, Structural)]
pub enum Refusal {
    /// The write would not reach the caller of a `&` parameter.
    RefParameter,
    /// The parameter is constant.
    ConstParameter,
}

/// A refused write: the captured name and the reason.
#[derive(Debug)]
pub struct Refused {
    pub name: String,
    pub why: Refusal,
}

/// The refused writes of a list as values.
pub open spec fn refused_views(s: Seq<Refused>) -> Seq<(Seq<char>, Refusal)> {
    Seq::new(s.len(), |i: int| (s[i].name@, s[i].why))
}

/// The variables once argument `arg`, called `name`, has a local that stands in for
/// it, and that local.
pub open spec fn shadowed(
    defs: Seq<Definition>,
    f: data::FnView,
    name: Seq<char>,
    arg: u16,
) -> Option<(data::FnView, u16)> {
    let a = f.vars[arg as int];
    if cells::cell_name(a.tp, defs) is None || f.vars.len() >= u16::MAX {
        None
    } else {
        let shadow = data::VarView {
            promoted_from: Some(arg),
            defined: true,
            value_const: a.value_const,
            const_binding: a.const_binding,
            ..data::plain_var("__bx_"@ + name, a.tp)
        };
        let with_local = data::FnView { vars: f.vars.push(shadow), ..f };
        let with_use = data::with_var(with_local, arg, data::VarView { used: true, ..a });
        let v = f.vars.len() as u16;
        Some((data::FnView { renames: with_use.renames.push((name, v)), ..with_use }, v))
    }
}

/// Let a local that starts out as argument `arg` stand in for it; `None` for a type
/// without a cell.
pub fn promote_boxed_scalar_arg(
    data: &Data,
    vars: &mut Function,
    name: &str,
    arg: u16,
) -> (shadow: Option<u16>)
    requires
        arg < old(vars).variables.len(),
    ensures
        match shadow {
            Some(v) => shadowed(data.definitions@, old(vars)@, name@, arg) == Some(
                (final(vars)@, v),
            ) && v < final(vars).variables.len() && final(vars).variables.len() == old(
                vars
            ).variables.len() + 1,
            None => shadowed(data.definitions@, old(vars)@, name@, arg) is None && *final(vars)
                == *old(vars),
        },
{
    let ghost a = vars@.vars[arg as int];
    match cells::cell_struct_name(&vars.variables[arg as usize].tp, data) {
        Some(_) => {},
        None => {
            return None;
        },
    }
    if vars.variables.len() >= u16::MAX as usize {
        return None;
    }
    let mut var: Variable = Variable::plain(
        text::join("__bx_", name),
        vars.variables[arg as usize].tp.copy(),
    );
    var.promoted_from = Some(arg);
    var.defined = true;
    var.value_const = vars.variables[arg as usize].value_const;
    var.const_binding = vars.variables[arg as usize].const_binding;
    let v: u16 = vars.add_variable(var);
    vars.mark_used(arg);
    vars.remap_name(name, v);
    Some(v)
}

/// Whether variable `v` is a `&` parameter that the source declares.
pub open spec fn declared_ref(attrs: Seq<Attribute>, f: data::FnView, v: u16) -> bool {
    &&& f.vars[v as int].tp is RefVar
    &&& f.vars[v as int].argument
    &&& v < attrs.len()
    &&& !attrs[v as int].hidden
}

/// The variables with `v` in its cell, where there is one for it.
pub open spec fn in_cell(defs: Seq<Definition>, f: data::FnView, v: u16) -> data::FnView {
    let t = f.vars[v as int].tp;
    if cells::cell_of(t, defs) is Some || captures::cell_type(defs, t) == t {
        f
    } else {
        data::with_var(
            f,
            v,
            data::VarView { tp: captures::cell_type(defs, t), ..f.vars[v as int] },
        )
    }
}

/// The variables with the boxed name moved into a cell, or the reason why it
/// cannot be.  An argument is boxed through a local that stands in for it.
pub open spec fn flipped(
    defs: Seq<Definition>,
    attrs: Seq<Attribute>,
    f: data::FnView,
    name: Seq<char>,
) -> (data::FnView, Option<Refusal>) {
    let v = data::named_in(f, name);
    if v >= f.vars.len() {
        (f, None)
    } else {
        let var = f.vars[v as int];
        if declared_ref(attrs, f, v) && (var.tp matches types::Ty::RefVar(inner)
            && cells::cell_name(*inner, defs) is Some) {
            (f, Some(Refusal::RefParameter))
        } else if var.argument && !(var.tp is RefVar) {
            if var.value_const {
                (f, Some(Refusal::ConstParameter))
            } else {
                match shadowed(defs, f, name, v) {
                    Some((g, shadow)) => (in_cell(defs, g, shadow), None),
                    None => (f, None),
                }
            }
        } else {
            (in_cell(defs, f, v), None)
        }
    }
}

/// The variables with the first `k` boxed names moved into cells, and the writes
/// that are refused.
pub open spec fn flipped_all(
    defs: Seq<Definition>,
    attrs: Seq<Attribute>,
    f: data::FnView,
    names: Seq<Seq<char>>,
    k: int,
) -> (data::FnView, Seq<(Seq<char>, Refusal)>)
    decreases k,
{
    if k <= 0 {
        (f, Seq::empty())
    } else {
        let (g, refused) = flipped_all(defs, attrs, f, names, k - 1);
        let (h, why) = flipped(defs, attrs, g, names[k - 1]);
        match why {
            Some(w) => (h, refused.push((names[k - 1], w))),
            None => (h, refused),
        }
    }
}

fn move_into_cell(data: &Data, vars: &mut Function, v: u16)
    requires
        v < old(vars).variables.len(),
        data.definitions.len() <= u32::MAX,
    ensures
        final(vars)@ == in_cell(data.definitions@, old(vars)@, v),
        final(vars).variables.len() == old(vars).variables.len(),
{
    assert(vars@.vars[v as int] == vars.variables@[v as int]@);
    match cells::boxed_cell_def(&vars.variables[v as usize].tp, data) {
        Some(_) => {
            return;
        },
        None => {},
    }
    match cells::cell_struct_name(&vars.variables[v as usize].tp, data) {
        Some(name) => {
            let d: u32 = data.def_nr(name.as_str());
            if d != u32::MAX {
                let tp = Type::Reference(d, Deps::none());
                if tp.same(&vars.variables[v as usize].tp) {
                    return;
                }
                vars.set_type(v, tp);
            }
        },
        None => {},
    }
}

fn flip_one(data: &Data, attrs: &Vec<Attribute>, vars: &mut Function, name: &str) -> (why: Option<
    Refusal,
>)
    requires
        old(vars).variables.len() <= u16::MAX,
        data.definitions.len() <= u32::MAX,
    ensures
        (final(vars)@, why) == flipped(data.definitions@, attrs@, old(vars)@, name@),
        final(vars).variables.len() <= u16::MAX,
{
    let v: u16 = vars.lookup(name);
    if (v as usize) >= vars.variables.len() {
        return None;
    }
    assert(vars@.vars[v as int] == vars.variables@[v as int]@);
    let argument: bool = vars.variables[v as usize].argument;
    let mut is_ref: bool = false;
    match &vars.variables[v as usize].tp {
        Type::RefVar(inner) => {
            is_ref = true;
            if argument && (v as usize) < attrs.len() && !attrs[v as usize].hidden {
                match cells::cell_struct_name(inner, data) {
                    Some(_) => {
                        return Some(Refusal::RefParameter);
                    },
                    None => {},
                }
            }
        },
        _ => {},
    }
    if argument && !is_ref {
        if vars.variables[v as usize].value_const {
            return Some(Refusal::ConstParameter);
        }
        match promote_boxed_scalar_arg(data, vars, name, v) {
            Some(shadow) => {
                move_into_cell(data, vars, shadow);
            },
            None => {},
        }
        return None;
    }
    move_into_cell(data, vars, v);
    None
}

/// Move the scalars that definition `context` boxes into their cells, and list the
/// writes that are refused.
pub fn flip_scalars_to_box_types(data: &Data, context: u32, vars: &mut Function) -> (refused: Vec<
    Refused,
>)
    requires
        old(vars).variables.len() <= u16::MAX,
        data.definitions.len() <= u32::MAX,
    ensures
        (final(vars)@, refused_views(refused@)) == if context < data.definitions.len() {
            let def = data.definitions@[context as int];
            let names = text::texts(def.scalars_to_box@);
            flipped_all(
                data.definitions@,
                def.attributes@,
                old(vars)@,
                names,
                names.len() as int,
            )
        } else {
            (old(vars)@, Seq::empty())
        },
{
    let mut refused: Vec<Refused> = Vec::new();
    assert(refused_views(refused@) =~= Seq::<(Seq<char>, Refusal)>::empty());
    if context as usize >= data.definitions.len() {
        return refused;
    }
    let def: &Definition = &data.definitions[context as usize];
    let ghost names = text::texts(def.scalars_to_box@);
    let ghost first = vars@;
    let mut i: usize = 0;
    while i < def.scalars_to_box.len()
        invariant
            i <= def.scalars_to_box.len(),
            data.definitions.len() <= u32::MAX,
            names == text::texts(def.scalars_to_box@),
            vars.variables.len() <= u16::MAX,
            (vars@, refused_views(refused@)) == flipped_all(
                data.definitions@,
                def.attributes@,
                first,
                names,
                i as int,
            ),
        decreases def.scalars_to_box.len() - i,
    {
        let name: &str = def.scalars_to_box[i].as_str();
        assert(name@ == names[i as int]);
        match flip_one(data, &def.attributes, vars, name) {
            Some(why) => {
                let ghost before = refused_views(refused@);
                refused.push(Refused { name: name.to_owned(), why });
                assert(refused_views(refused@) =~= before.push((name@, why)));
            },
            None => {},
        }
        i = i + 1;
    }
    refused
}

/// The fields of every definition.
pub open spec fn fields(defs: Seq<Definition>) -> Seq<Seq<data::AttrView>> {
    Seq::new(defs.len(), |d: int| data::attr_views(defs[d].attributes@))
}

/// Whether two lists of definitions differ in their fields alone.
pub open spec fn same_but_fields(a: Seq<Definition>, b: Seq<Definition>) -> bool {
    &&& a.len() == b.len()
    &&& forall|d: int|
        0 <= d < a.len() ==> #[trigger] b[d] == (Definition { attributes: b[d].attributes, ..a[d] })
}

/// The position of the first field from `from` on that is called `name`.
pub open spec fn field_from(s: Seq<data::AttrView>, name: Seq<char>, from: int) -> Option<int>
    decreases s.len() - from,
{
    if from < 0 || from >= s.len() {
        None
    } else if s[from].name == name {
        Some(from)
    } else {
        field_from(s, name, from + 1)
    }
}

/// The fields with another type for field `i` of definition `d`.
pub open spec fn retyped(
    all: Seq<Seq<data::AttrView>>,
    d: int,
    i: int,
    t: types::Ty,
) -> Seq<Seq<data::AttrView>> {
    all.update(d, all[d].update(i, data::AttrView { typedef: t, ..all[d][i] }))
}

/// What the field called `name` of a closure record holds: `inline` where the
/// variable has an indirection of its own and the field was a cell, and else its
/// cell where it was not one yet.
pub open spec fn settled(
    defs: Seq<Definition>,
    all: Seq<Seq<data::AttrView>>,
    record: u32,
    name: Seq<char>,
    inline: Option<types::Ty>,
) -> Seq<Seq<data::AttrView>> {
    if record >= all.len() {
        all
    } else {
        match field_from(all[record as int], name, 0) {
            Some(i) => {
                let t = all[record as int][i].typedef;
                let is_cell = cells::cell_of(t, defs) is Some;
                match inline {
                    Some(own) => if is_cell {
                        retyped(all, record as int, i, own)
                    } else {
                        all
                    },
                    None => if is_cell {
                        all
                    } else {
                        retyped(all, record as int, i, captures::cell_type(defs, t))
                    },
                }
            },
            None => all,
        }
    }
}

/// The closure record of a lambda; `u32::MAX` for none.
pub open spec fn record_of(defs: Seq<Definition>, lambda: u32) -> u32 {
    if lambda < defs.len() {
        defs[lambda as int].closure_record
    } else {
        u32::MAX
    }
}

/// The fields once the first `k` lambdas hold `name` as they should.
pub open spec fn settled_in(
    defs: Seq<Definition>,
    all: Seq<Seq<data::AttrView>>,
    lambdas: Seq<u32>,
    name: Seq<char>,
    inline: Option<types::Ty>,
    k: int,
) -> Seq<Seq<data::AttrView>>
    decreases k,
{
    if k <= 0 {
        all
    } else {
        settled(
            defs,
            settled_in(defs, all, lambdas, name, inline, k - 1),
            record_of(defs, lambdas[k - 1]),
            name,
            inline,
        )
    }
}

proof fn cells_by_name(a: Seq<Definition>, b: Seq<Definition>, t: types::Ty)
    requires
        same_but_fields(a, b),
    ensures
        cells::cell_of(t, a) == cells::cell_of(t, b),
        captures::cell_type(a, t) == captures::cell_type(b, t),
{
    assert forall|d: u32| cells::name_of(a, d) == #[trigger] cells::name_of(b, d) by {
        if d < a.len() {
            assert(b[d as int].name == a[d as int].name);
        }
    }
    assert(cells::cell_name(t, a) == cells::cell_name(t, b));
    match cells::cell_name(t, a) {
        Some(name) => {
            assert forall|d: int| 0 <= d < a.len() implies (#[trigger] b[d]).name@
                == a[d].name@ by {}
            data::same_names_found_alike(a, b, name, 0);
        },
        None => {},
    }
}

fn find_field(attrs: &Vec<Attribute>, name: &str) -> (at: Option<usize>)
    ensures
        match at {
            Some(i) => i < attrs.len() && field_from(data::attr_views(attrs@), name@, 0) == Some(
                i as int,
            ),
            None => field_from(data::attr_views(attrs@), name@, 0) is None,
        },
{
    let mut i: usize = 0;
    while i < attrs.len()
        invariant
            i <= attrs.len(),
            field_from(data::attr_views(attrs@), name@, 0) == field_from(
                data::attr_views(attrs@),
                name@,
                i as int,
            ),
        decreases attrs.len() - i,
    {
        if text::same(attrs[i].name.as_str(), name) {
            return Some(i);
        }
        i = i + 1;
    }
    None
}

fn retype(data: &mut Data, d: usize, i: usize, tp: Type)
    requires
        d < old(data).definitions.len(),
        i < old(data).definitions@[d as int].attributes.len(),
    ensures
        same_but_fields(old(data).definitions@, final(data).definitions@),
        fields(final(data).definitions@) == retyped(
            fields(old(data).definitions@),
            d as int,
            i as int,
            tp@,
        ),
{
    let ghost was = data.definitions@;
    let ghost own = data.definitions@[d as int].attributes@;
    data.definitions[d].attributes[i].typedef = tp;
    let ghost now = data.definitions@[d as int].attributes@;
    assert(data::attr_views(now) =~= data::attr_views(own).update(
        i as int,
        data::AttrView { typedef: tp@, ..data::attr_views(own)[i as int] },
    ));
    assert(fields(data.definitions@) =~= retyped(fields(was), d as int, i as int, tp@));
}

fn settle(data: &mut Data, record: u32, name: &str, inline: Option<&Type>)
    requires
        old(data).definitions.len() <= u32::MAX,
    ensures
        same_but_fields(old(data).definitions@, final(data).definitions@),
        fields(final(data).definitions@) == settled(
            old(data).definitions@,
            fields(old(data).definitions@),
            record,
            name@,
            match inline {
                Some(t) => Some(t@),
                None => None,
            },
        ),
{
    if record as usize >= data.definitions.len() {
        return;
    }
    let r: usize = record as usize;
    assert(fields(data.definitions@)[record as int] == data::attr_views(
        data.definitions@[record as int].attributes@,
    ));
    match find_field(&data.definitions[r].attributes, name) {
        Some(i) => {
            let is_cell: bool = cells::boxed_cell_def(
                &data.definitions[r].attributes[i].typedef,
                data,
            ).is_some();
            match inline {
                Some(own) => {
                    if is_cell {
                        retype(data, r, i, own.copy());
                    }
                },
                None => {
                    if !is_cell {
                        let tp: Type = captures::to_cell(
                            data,
                            &data.definitions[r].attributes[i].typedef,
                        );
                        retype(data, r, i, tp);
                    }
                },
            }
        },
        None => {},
    }
}

fn settle_in(data: &mut Data, lambdas: &Vec<u32>, name: &str, inline: Option<&Type>)
    requires
        old(data).definitions.len() <= u32::MAX,
    ensures
        same_but_fields(old(data).definitions@, final(data).definitions@),
        fields(final(data).definitions@) == settled_in(
            old(data).definitions@,
            fields(old(data).definitions@),
            lambdas@,
            name@,
            match inline {
                Some(t) => Some(t@),
                None => None,
            },
            lambdas.len() as int,
        ),
{
    let ghost first = data.definitions@;
    let ghost own = match inline {
        Some(t) => Some(t@),
        None => None,
    };
    let mut i: usize = 0;
    while i < lambdas.len()
        invariant
            i <= lambdas.len(),
            first.len() <= u32::MAX,
            same_but_fields(first, data.definitions@),
            own == (match inline {
                Some(t) => Some(t@),
                None => None,
            }),
            fields(data.definitions@) == settled_in(
                first,
                fields(first),
                lambdas@,
                name@,
                own,
                i as int,
            ),
        decreases lambdas.len() - i,
    {
        let lam: u32 = lambdas[i];
        let record: u32 = if (lam as usize) < data.definitions.len() {
            assert(data.definitions@[lam as int].closure_record
                == first[lam as int].closure_record);
            data.definitions[lam as usize].closure_record
        } else {
            u32::MAX
        };
        let ghost now = data.definitions@;
        settle(data, record, name, inline);
        proof {
            assert forall|t: types::Ty| #[trigger] cells::cell_of(t, now) == cells::cell_of(
                t,
                first,
            ) && captures::cell_type(now, t) == captures::cell_type(first, t) by {
                cells_by_name(first, now, t);
            }
            assert forall|d: int| 0 <= d < first.len() implies #[trigger] data.definitions@[d] == (
            Definition { attributes: data.definitions@[d].attributes, ..first[d] }) by {
                assert(now[d] == (Definition { attributes: now[d].attributes, ..first[d] }));
            }
        }
        i = i + 1;
    }
}

/// The type behind the indirection that a variable already has.
pub open spec fn own_indirection(f: data::FnView, name: Seq<char>) -> Option<types::Ty> {
    let v = data::named_in(f, name);
    if v < f.vars.len() {
        match f.vars[v as int].tp {
            types::Ty::RefVar(inner) => Some(*inner),
            _ => None,
        }
    } else {
        None
    }
}

fn indirection<'a>(vars: &'a Function, name: &str) -> (t: Option<&'a Type>)
    requires
        vars.variables.len() <= u16::MAX,
    ensures
        match t {
            Some(x) => own_indirection(vars@, name@) == Some(x@),
            None => own_indirection(vars@, name@) is None,
        },
{
    let v: u16 = vars.lookup(name);
    if (v as usize) < vars.variables.len() {
        assert(vars@.vars[v as int] == vars.variables@[v as int]@);
        match &vars.variables[v as usize].tp {
            Type::RefVar(inner) => Some(&**inner),
            _ => None,
        }
    } else {
        None
    }
}

/// The fields once the first `k` boxed names are held inline where the variable has
/// an indirection of its own.
pub open spec fn finalized(
    defs: Seq<Definition>,
    f: data::FnView,
    all: Seq<Seq<data::AttrView>>,
    names: Seq<Seq<char>>,
    lambdas: Seq<u32>,
    k: int,
) -> Seq<Seq<data::AttrView>>
    decreases k,
{
    if k <= 0 {
        all
    } else {
        let before = finalized(defs, f, all, names, lambdas, k - 1);
        match own_indirection(f, names[k - 1]) {
            Some(inner) => settled_in(
                defs,
                before,
                lambdas,
                names[k - 1],
                Some(inner),
                lambdas.len() as int,
            ),
            None => before,
        }
    }
}

/// The fields once the first `k` boxed names are cells in the lambdas, unless the
/// variable has an indirection of its own.
pub open spec fn nested_boxed(
    defs: Seq<Definition>,
    f: data::FnView,
    all: Seq<Seq<data::AttrView>>,
    names: Seq<Seq<char>>,
    lambdas: Seq<u32>,
    k: int,
) -> Seq<Seq<data::AttrView>>
    decreases k,
{
    if k <= 0 {
        all
    } else {
        let before = nested_boxed(defs, f, all, names, lambdas, k - 1);
        match own_indirection(f, names[k - 1]) {
            Some(_) => before,
            None => settled_in(
                defs,
                before,
                lambdas,
                names[k - 1],
                None,
                lambdas.len() as int,
            ),
        }
    }
}

/// Settling looks at names and closure records only, which fields do not change.
proof fn settling_is_alike(
    a: Seq<Definition>,
    b: Seq<Definition>,
    all: Seq<Seq<data::AttrView>>,
    lambdas: Seq<u32>,
    name: Seq<char>,
    inline: Option<types::Ty>,
    k: int,
)
    requires
        same_but_fields(a, b),
        0 <= k <= lambdas.len(),
    ensures
        settled_in(a, all, lambdas, name, inline, k) == settled_in(
            b,
            all,
            lambdas,
            name,
            inline,
            k,
        ),
    decreases k,
{
    if k > 0 {
        settling_is_alike(a, b, all, lambdas, name, inline, k - 1);
        let before = settled_in(a, all, lambdas, name, inline, k - 1);
        let lam = lambdas[k - 1];
        if lam < a.len() {
            assert(b[lam as int].closure_record == a[lam as int].closure_record);
        }
        let record = record_of(a, lam);
        if record < before.len() {
            match field_from(before[record as int], name, 0) {
                Some(i) => {
                    cells_by_name(a, b, before[record as int][i].typedef);
                },
                None => {},
            }
        }
    }
}

proof fn same_but_fields_twice(a: Seq<Definition>, b: Seq<Definition>, c: Seq<Definition>)
    requires
        same_but_fields(a, b),
        same_but_fields(b, c),
    ensures
        same_but_fields(a, c),
{
    assert forall|d: int| 0 <= d < a.len() implies #[trigger] c[d] == (Definition {
        attributes: c[d].attributes,
        ..a[d]
    }) by {
        assert(b[d] == (Definition { attributes: b[d].attributes, ..a[d] }));
    }
}

/// Settle how the captured scalars that definition `parent` boxes are stored, once
/// its body is complete: a variable with an indirection of its own is held inline.
/// In the second pass it is settled already.
pub fn finalize_capture_storage(
    data: &mut Data,
    parent: u32,
    vars: &Function,
    lambdas: &Vec<u32>,
    first_pass: bool,
)
    requires
        old(data).definitions.len() <= u32::MAX,
        vars.variables.len() <= u16::MAX,
    ensures
        same_but_fields(old(data).definitions@, final(data).definitions@),
        !first_pass ==> *final(data) == *old(data),
        fields(final(data).definitions@) == if first_pass && parent < old(data).definitions.len() {
            let names = text::texts(old(data).definitions@[parent as int].scalars_to_box@);
            finalized(
                old(data).definitions@,
                vars@,
                fields(old(data).definitions@),
                names,
                lambdas@,
                names.len() as int,
            )
        } else {
            fields(old(data).definitions@)
        },
{
    if !first_pass || parent as usize >= data.definitions.len() {
        return;
    }
    let ghost first = data.definitions@;
    let names: Vec<String> = captures::copy_names(&data.definitions[parent as usize].scalars_to_box);
    let ghost all = text::texts(names@);
    let mut i: usize = 0;
    while i < names.len()
        invariant
            i <= names.len(),
            first.len() <= u32::MAX,
            vars.variables.len() <= u16::MAX,
            all == text::texts(names@),
            same_but_fields(first, data.definitions@),
            fields(data.definitions@) == finalized(
                first,
                vars@,
                fields(first),
                all,
                lambdas@,
                i as int,
            ),
        decreases names.len() - i,
    {
        let name: &str = names[i].as_str();
        assert(name@ == all[i as int]);
        match indirection(vars, name) {
            Some(inner) => {
                let ghost now = data.definitions@;
                settle_in(data, lambdas, name, Some(inner));
                proof {
                    settling_is_alike(
                        first,
                        now,
                        fields(now),
                        lambdas@,
                        name@,
                        Some(inner@),
                        lambdas.len() as int,
                    );
                    same_but_fields_twice(first, now, data.definitions@);
                }
            },
            None => {},
        }
        i = i + 1;
    }
}

/// The lambdas that a definition holds.
#[derive(Debug)]
pub struct Lambdas {
    pub def: u32,
    pub lambdas: Vec<u32>,
}

/// The lambdas of definition `d`, as the first entry from `from` on lists them.
pub open spec fn lambdas_from(s: Seq<Lambdas>, d: u32, from: int) -> Seq<u32>
    decreases s.len() - from,
{
    if from < 0 || from >= s.len() {
        Seq::empty()
    } else if s[from].def == d {
        s[from].lambdas@
    } else {
        lambdas_from(s, d, from + 1)
    }
}

fn lambdas_of(s: &Vec<Lambdas>, d: u32) -> (out: Vec<u32>)
    ensures
        out@ == lambdas_from(s@, d, 0),
{
    let mut i: usize = 0;
    while i < s.len()
        invariant
            i <= s.len(),
            lambdas_from(s@, d, 0) == lambdas_from(s@, d, i as int),
        decreases s.len() - i,
    {
        if s[i].def == d {
            return copy_defs(&s[i].lambdas);
        }
        i = i + 1;
    }
    Vec::new()
}

fn copy_defs(s: &Vec<u32>) -> (out: Vec<u32>)
    ensures
        out@ == s@,
{
    let mut out: Vec<u32> = Vec::new();
    let mut i: usize = 0;
    while i < s.len()
        invariant
            i <= s.len(),
            out@ == s@.take(i as int),
        decreases s.len() - i,
    {
        out.push(s[i]);
        assert(out@ =~= s@.take(i + 1));
        i = i + 1;
    }
    assert(out@ =~= s@);
    out
}

fn has_def(defs: &Vec<u32>, d: u32) -> (found: bool)
    ensures
        found == defs@.contains(d),
{
    let mut i: usize = 0;
    while i < defs.len()
        invariant
            i <= defs.len(),
            forall|j: int| 0 <= j < i ==> defs@[j] != d,
        decreases defs.len() - i,
    {
        if defs[i] == d {
            return true;
        }
        i = i + 1;
    }
    false
}

/// The lambdas directly inside the first `k` of a list.
pub open spec fn inner_lambdas(graph: Seq<Lambdas>, s: Seq<u32>, k: int) -> Seq<u32>
    decreases k,
{
    if k <= 0 {
        Seq::empty()
    } else {
        inner_lambdas(graph, s, k - 1) + lambdas_from(graph, s[k - 1], 0)
    }
}

/// The lambdas that are found from those still to visit, at any depth, apart from
/// the direct ones.
pub open spec fn reached(
    graph: Seq<Lambdas>,
    direct: Seq<u32>,
    todo: Seq<u32>,
    seen: Seq<u32>,
) -> Seq<u32>
    decreases 0x1_0000_0000 - seen.len(), todo.len(),
{
    if todo.len() == 0 || seen.len() > 0x1_0000_0000 {
        seen
    } else {
        let lam = todo.last();
        if seen.contains(lam) || direct.contains(lam) {
            reached(graph, direct, todo.drop_last(), seen)
        } else if seen.len() >= 0x1_0000_0000 {
            seen
        } else {
            reached(
                graph,
                direct,
                todo.drop_last() + lambdas_from(graph, lam, 0),
                seen.push(lam),
            )
        }
    }
}

/// The lambdas nested inside the lambdas of definition `d`.
pub open spec fn nested(graph: Seq<Lambdas>, d: u32) -> Seq<u32> {
    let direct = lambdas_from(graph, d, 0);
    reached(graph, direct, inner_lambdas(graph, direct, direct.len() as int), Seq::empty())
}

/// A list of distinct definitions is no longer than there are numbers.
proof fn distinct_definitions(s: Seq<u32>)
    requires
        s.no_duplicates(),
    ensures
        s.len() <= 0x1_0000_0000,
{
    let ints = s.map_values(|x: u32| x as int);
    assert(ints.no_duplicates());
    ints.unique_seq_to_set();
    let all = vstd::set_lib::set_int_range(0, 0x1_0000_0000);
    vstd::set_lib::lemma_int_range(0, 0x1_0000_0000);
    assert(ints.to_set().subset_of(all)) by {
        assert forall|x: int| ints.to_set().contains(x) implies all.contains(x) by {
            let i = choose|i: int| 0 <= i < ints.len() && ints[i] == x;
            assert(ints[i] == s[i] as int);
        }
    }
    vstd::set_lib::lemma_len_subset(ints.to_set(), all);
}

fn find_nested(graph: &Vec<Lambdas>, d: u32) -> (out: Vec<u32>)
    ensures
        out@ == nested(graph@, d),
{
    let direct: Vec<u32> = lambdas_of(graph, d);
    let mut todo: Vec<u32> = Vec::new();
    let mut i: usize = 0;
    assert(todo@ =~= inner_lambdas(graph@, direct@, 0));
    while i < direct.len()
        invariant
            i <= direct.len(),
            todo@ == inner_lambdas(graph@, direct@, i as int),
        decreases direct.len() - i,
    {
        let mut inner: Vec<u32> = lambdas_of(graph, direct[i]);
        todo.append(&mut inner);
        i = i + 1;
    }
    let mut seen: Vec<u32> = Vec::new();
    let ghost start = todo@;
    while todo.len() > 0
        invariant
            seen@.no_duplicates(),
            reached(graph@, direct@, start, Seq::empty()) == reached(
                graph@,
                direct@,
                todo@,
                seen@,
            ),
        decreases 0x1_0000_0000 - seen.len(), todo.len(),
    {
        proof {
            distinct_definitions(seen@);
        }
        let ghost before = todo@;
        let lam: u32 = todo.pop().unwrap();
        assert(todo@ =~= before.drop_last());
        if !has_def(&seen, lam) && !has_def(&direct, lam) {
            let ghost was = seen@;
            seen.push(lam);
            proof {
                assert(seen@.no_duplicates());
                distinct_definitions(seen@);
            }
            let mut inner: Vec<u32> = lambdas_of(graph, lam);
            todo.append(&mut inner);
        }
    }
    seen
}

/// Store the scalars that definition `parent` boxes as cells in the lambdas nested
/// inside its lambdas.  In the second pass nothing changes.
pub fn box_nested_capture_attrs(
    data: &mut Data,
    parent: u32,
    vars: &Function,
    graph: &Vec<Lambdas>,
    first_pass: bool,
)
    requires
        old(data).definitions.len() <= u32::MAX,
        vars.variables.len() <= u16::MAX,
    ensures
        same_but_fields(old(data).definitions@, final(data).definitions@),
        !first_pass ==> *final(data) == *old(data),
        fields(final(data).definitions@) == if first_pass && parent < old(data).definitions.len() {
            let names = text::texts(old(data).definitions@[parent as int].scalars_to_box@);
            nested_boxed(
                old(data).definitions@,
                vars@,
                fields(old(data).definitions@),
                names,
                nested(graph@, parent),
                names.len() as int,
            )
        } else {
            fields(old(data).definitions@)
        },
{
    if !first_pass || parent as usize >= data.definitions.len() {
        return;
    }
    let ghost first = data.definitions@;
    let names: Vec<String> = captures::copy_names(&data.definitions[parent as usize].scalars_to_box);
    let ghost all = text::texts(names@);
    let lambdas: Vec<u32> = find_nested(graph, parent);
    let mut i: usize = 0;
    while i < names.len()
        invariant
            i <= names.len(),
            first.len() <= u32::MAX,
            vars.variables.len() <= u16::MAX,
            all == text::texts(names@),
            same_but_fields(first, data.definitions@),
            fields(data.definitions@) == nested_boxed(
                first,
                vars@,
                fields(first),
                all,
                lambdas@,
                i as int,
            ),
        decreases names.len() - i,
    {
        let name: &str = names[i].as_str();
        assert(name@ == all[i as int]);
        match indirection(vars, name) {
            Some(_) => {},
            None => {
                let ghost now = data.definitions@;
                settle_in(data, &lambdas, name, None);
                proof {
                    settling_is_alike(
                        first,
                        now,
                        fields(now),
                        lambdas@,
                        name@,
                        None,
                        lambdas.len() as int,
                    );
                    same_but_fields_twice(first, now, data.definitions@);
                }
            },
        }
        i = i + 1;
    }
}

/// How many of the first `k` lambdas capture `name`.
pub open spec fn capturers(
    defs: Seq<Definition>,
    lambdas: Seq<u32>,
    name: Seq<char>,
    k: int,
) -> nat
    decreases k,
{
    if k <= 0 {
        0
    } else {
        let record = record_of(defs, lambdas[k - 1]);
        capturers(defs, lambdas, name, k - 1) + if record < defs.len() && captures::attr_names(
            defs[record as int].attributes@,
        ).contains(name) {
            1nat
        } else {
            0
        }
    }
}

/// The boxed names among the first `k` that more than one lambda captures.
pub open spec fn shared(
    defs: Seq<Definition>,
    lambdas: Seq<u32>,
    names: Seq<Seq<char>>,
    k: int,
) -> Seq<Seq<char>>
    decreases k,
{
    if k <= 0 {
        Seq::empty()
    } else {
        let before = shared(defs, lambdas, names, k - 1);
        if capturers(defs, lambdas, names[k - 1], lambdas.len() as int) >= 2 {
            before.push(names[k - 1])
        } else {
            before
        }
    }
}

fn count_capturers(data: &Data, lambdas: &Vec<u32>, name: &str) -> (n: usize)
    ensures
        n == capturers(data.definitions@, lambdas@, name@, lambdas.len() as int),
{
    let mut n: usize = 0;
    let mut i: usize = 0;
    while i < lambdas.len()
        invariant
            i <= lambdas.len(),
            n <= i,
            n == capturers(data.definitions@, lambdas@, name@, i as int),
        decreases lambdas.len() - i,
    {
        let lam: u32 = lambdas[i];
        if (lam as usize) < data.definitions.len() {
            let record: u32 = data.definitions[lam as usize].closure_record;
            if (record as usize) < data.definitions.len() {
                let attrs: &Vec<Attribute> = &data.definitions[record as usize].attributes;
                match find_field(attrs, name) {
                    Some(at) => {
                        proof {
                            found_field(data::attr_views(attrs@), name@, 0);
                            assert(captures::attr_names(attrs@)[at as int] == name@);
                        }
                        n = n + 1;
                    },
                    None => {
                        proof {
                            no_field(attrs@, name@, 0);
                        }
                    },
                }
            }
        }
        i = i + 1;
    }
    n
}

proof fn found_field(s: Seq<data::AttrView>, name: Seq<char>, from: int)
    requires
        0 <= from,
        field_from(s, name, from) is Some,
    ensures
        from <= field_from(s, name, from)->0 < s.len(),
        s[field_from(s, name, from)->0].name == name,
    decreases s.len() - from,
{
    if from < s.len() && s[from].name != name {
        found_field(s, name, from + 1);
    }
}

proof fn no_field(attrs: Seq<Attribute>, name: Seq<char>, from: int)
    requires
        0 <= from,
        field_from(data::attr_views(attrs), name, from) is None,
    ensures
        forall|i: int|
            from <= i < attrs.len() ==> #[trigger] captures::attr_names(attrs)[i] != name,
    decreases attrs.len() - from,
{
    if from < attrs.len() {
        no_field(attrs, name, from + 1);
        assert(data::attr_views(attrs)[from].name == attrs[from].name@);
    }
}

/// The scalars that definition `parent` boxes and that more than one of its lambdas
/// captures: sharing a variable that is written between closures is refused.  In the
/// second pass nothing is refused.
pub fn reject_shared_mutable_scalar_captures(
    data: &Data,
    parent: u32,
    lambdas: &Vec<u32>,
    first_pass: bool,
) -> (refused: Vec<String>)
    ensures
        text::texts(refused@) == if first_pass && parent < data.definitions.len() {
            let names = text::texts(data.definitions@[parent as int].scalars_to_box@);
            shared(data.definitions@, lambdas@, names, names.len() as int)
        } else {
            Seq::empty()
        },
{
    let mut refused: Vec<String> = Vec::new();
    assert(text::texts(refused@) =~= Seq::<Seq<char>>::empty());
    if !first_pass || parent as usize >= data.definitions.len() {
        return refused;
    }
    let names: &Vec<String> = &data.definitions[parent as usize].scalars_to_box;
    let ghost all = text::texts(names@);
    let mut i: usize = 0;
    while i < names.len()
        invariant
            i <= names.len(),
            all == text::texts(names@),
            text::texts(refused@) == shared(data.definitions@, lambdas@, all, i as int),
        decreases names.len() - i,
    {
        assert(names@[i as int]@ == all[i as int]);
        if count_capturers(data, lambdas, names[i].as_str()) >= 2 {
            let ghost before = text::texts(refused@);
            refused.push(names[i].clone());
            assert(text::texts(refused@) =~= before.push(all[i as int]));
        }
        i = i + 1;
    }
    refused
}

/// The record that definition `d` marks as one that may be absent: the first from
/// `from` on whose name it wraps.
pub open spec fn payload_from(defs: Seq<Definition>, name: Seq<char>, from: int) -> Option<u32>
    decreases defs.len() - from,
{
    if from < 0 || from >= defs.len() {
        None
    } else if name == "__nullable<"@ + defs[from].name@ + ">"@ {
        Some(from as u32)
    } else {
        payload_from(defs, name, from + 1)
    }
}

/// The record that a type marks as one that may be absent.
pub open spec fn payload(defs: Seq<Definition>, t: types::Ty) -> Option<u32> {
    match t {
        types::Ty::Enum(d, true, _) => payload_from(defs, cells::name_of(defs, d), 0),
        _ => None,
    }
}

fn find_payload(data: &Data, name: &str) -> (d: Option<u32>)
    requires
        data.definitions.len() <= u32::MAX,
    ensures
        d == payload_from(data.definitions@, name@, 0),
{
    let mut i: usize = 0;
    while i < data.definitions.len()
        invariant
            i <= data.definitions.len() <= u32::MAX,
            payload_from(data.definitions@, name@, 0) == payload_from(
                data.definitions@,
                name@,
                i as int,
            ),
        decreases data.definitions.len() - i,
    {
        let open: String = text::join("__nullable<", data.definitions[i].name.as_str());
        let wrapped: String = text::join(open.as_str(), ">");
        if text::same(name, wrapped.as_str()) {
            return Some(i as u32);
        }
        i = i + 1;
    }
    None
}

fn nullable_struct_payload(data: &Data, tp: &Type) -> (d: Option<u32>)
    requires
        data.definitions.len() <= u32::MAX,
    ensures
        d == payload(data.definitions@, tp@),
{
    match tp {
        Type::Enum(d, true, _) => find_payload(data, cells::def_name(data, *d)),
        _ => None,
    }
}

/// The definition of the elements of a collection of a type; `u32::MAX` for none.
pub open spec fn element_def(defs: Seq<Definition>, t: types::Ty) -> u32 {
    match t {
        types::Ty::Reference(d, _)
        | types::Ty::Enum(d, _, _)
        | types::Ty::Hash(d, _, _)
        | types::Ty::Sorted(d, _, _)
        | types::Ty::Index(d, _, _)
        | types::Ty::Radix(d, _, _)
        | types::Ty::Trie(d, _, _) => d,
        types::Ty::Integer(_) => data::def_from(defs, "integer"@, 0),
        types::Ty::Boolean => data::def_from(defs, "boolean"@, 0),
        types::Ty::Float => data::def_from(defs, "float"@, 0),
        types::Ty::Single => data::def_from(defs, "single"@, 0),
        types::Ty::Character => data::def_from(defs, "character"@, 0),
        types::Ty::Text(_) => data::def_from(defs, "text"@, 0),
        _ => u32::MAX,
    }
}

/// The definition of the elements of a collection of a type.
pub fn type_elm(data: &Data, tp: &Type) -> (d: u32)
    requires
        data.definitions.len() <= u32::MAX,
    ensures
        d == element_def(data.definitions@, tp@),
{
    match tp {
        Type::Reference(d, _)
        | Type::Enum(d, _, _)
        | Type::Hash(d, _, _)
        | Type::Sorted(d, _, _)
        | Type::Index(d, _, _)
        | Type::Radix(d, _, _)
        | Type::Trie(d, _, _) => *d,
        Type::Integer(_) => data.def_nr("integer"),
        Type::Boolean => data.def_nr("boolean"),
        Type::Float => data.def_nr("float"),
        Type::Single => data.def_nr("single"),
        Type::Character => data.def_nr("character"),
        Type::Text(_) => data.def_nr("text"),
        _ => u32::MAX,
    }
}

/// The type behind a `&`.
pub open spec fn pointee(t: types::Ty) -> types::Ty {
    match t {
        types::Ty::RefVar(inner) => *inner,
        _ => t,
    }
}

/// How a closure record holds a capture: records and collections are shared,
/// whether they may be absent or not, and a `&` parameter is held as what it points
/// at.
pub open spec fn attr_type(defs: Seq<Definition>, t: types::Ty) -> types::Ty {
    match payload(defs, t) {
        Some(d) => types::Ty::Reference(d, types::share_sentinel()),
        None => match types::base(pointee(t)) {
            types::Ty::Reference(d, _)
            | types::Ty::Hash(d, _, _)
            | types::Ty::Sorted(d, _, _)
            | types::Ty::Index(d, _, _)
            | types::Ty::Radix(d, _, _)
            | types::Ty::Trie(d, _, _) => types::Ty::Reference(d, types::share_sentinel()),
            types::Ty::Vector(elm, _) => types::Ty::Reference(
                element_def(defs, *elm),
                types::share_sentinel(),
            ),
            _ => pointee(t),
        },
    }
}

/// How a closure record holds a capture of type `tp`.
pub fn closure_attr_type(data: &Data, tp: &Type) -> (out: Type)
    requires
        data.definitions.len() <= u32::MAX,
    ensures
        out@ == attr_type(data.definitions@, tp@),
{
    match nullable_struct_payload(data, tp) {
        Some(d) => {
            return Type::Reference(d, Deps::share_sentinel());
        },
        None => {},
    }
    let held: &Type = match tp {
        Type::RefVar(inner) => &**inner,
        _ => tp,
    };
    match held.base() {
        Type::Reference(d, _)
        | Type::Hash(d, _, _)
        | Type::Sorted(d, _, _)
        | Type::Index(d, _, _)
        | Type::Radix(d, _, _)
        | Type::Trie(d, _, _) => Type::Reference(*d, Deps::share_sentinel()),
        Type::Vector(elm, _) => Type::Reference(type_elm(data, elm), Deps::share_sentinel()),
        _ => held.copy(),
    }
}

/// The field with the type that the enclosing scope gives its capture, where the
/// field has none yet.
pub open spec fn resolved_field(
    defs: Seq<Definition>,
    context: Seq<(Seq<char>, types::Ty)>,
    field: data::AttrView,
) -> data::AttrView {
    if types::unknown(field.typedef) {
        match captures::capture_type(context, field.name, 0) {
            Some(t) => if types::unknown(t) {
                field
            } else {
                data::AttrView { typedef: attr_type(defs, t), ..field }
            },
            None => field,
        }
    } else {
        field
    }
}

/// The fields of a closure record with the types that the enclosing scope gives
/// them.
pub open spec fn resolved(
    defs: Seq<Definition>,
    context: Seq<(Seq<char>, types::Ty)>,
    s: Seq<data::AttrView>,
) -> Seq<data::AttrView> {
    Seq::new(s.len(), |i: int| resolved_field(defs, context, s[i]))
}

/// Whether the type of every field is known.
pub open spec fn all_known(s: Seq<data::AttrView>) -> bool {
    forall|i: int| 0 <= i < s.len() ==> !types::unknown((#[trigger] s[i]).typedef)
}

/// The type that is found for a capture depends on the names and kinds of the
/// definitions, not on their fields.
proof fn attr_type_by_name(a: Seq<Definition>, b: Seq<Definition>, t: types::Ty)
    requires
        same_but_fields(a, b),
    ensures
        attr_type(a, t) == attr_type(b, t),
{
    assert forall|d: int| 0 <= d < a.len() implies (#[trigger] b[d]).name@ == a[d].name@ by {
        assert(b[d].name == a[d].name);
    }
    match t {
        types::Ty::Enum(d, true, _) => {
            if d < a.len() {
                assert(b[d as int].name@ == a[d as int].name@);
            }
            payload_by_name(a, b, cells::name_of(a, d), 0);
        },
        _ => {},
    }
    match types::base(pointee(t)) {
        types::Ty::Vector(elm, _) => {
            data::same_names_found_alike(a, b, "integer"@, 0);
            data::same_names_found_alike(a, b, "boolean"@, 0);
            data::same_names_found_alike(a, b, "float"@, 0);
            data::same_names_found_alike(a, b, "single"@, 0);
            data::same_names_found_alike(a, b, "character"@, 0);
            data::same_names_found_alike(a, b, "text"@, 0);
        },
        _ => {},
    }
}

proof fn payload_by_name(a: Seq<Definition>, b: Seq<Definition>, name: Seq<char>, from: int)
    requires
        a.len() == b.len(),
        forall|d: int| 0 <= d < a.len() ==> (#[trigger] b[d]).name@ == a[d].name@,
    ensures
        payload_from(a, name, from) == payload_from(b, name, from),
    decreases a.len() - from,
{
    if 0 <= from < a.len() {
        assert(b[from].name@ == a[from].name@);
        payload_by_name(a, b, name, from + 1);
    }
}

fn resolve_fields(data: &mut Data, record: usize, context: &Vec<Capture>)
    requires
        old(data).definitions.len() <= u32::MAX,
        record < old(data).definitions.len(),
    ensures
        same_but_fields(old(data).definitions@, final(data).definitions@),
        fields(final(data).definitions@) == fields(old(data).definitions@).update(
            record as int,
            resolved(
                old(data).definitions@,
                captures::capture_views(context@),
                data::attr_views(old(data).definitions@[record as int].attributes@),
            ),
        ),
{
    let ghost first = data.definitions@;
    let ghost scope = captures::capture_views(context@);
    let ghost own = data::attr_views(first[record as int].attributes@);
    let ghost want = resolved(first, scope, own);
    let n: usize = data.definitions[record].attributes.len();
    let mut i: usize = 0;
    assert(fields(first).update(record as int, own) =~= fields(first));
    assert(own =~= Seq::new(own.len(), |j: int| if j < 0 { want[j] } else { own[j] }));
    while i < n
        invariant
            i <= n,
            n == own.len(),
            record < first.len() <= u32::MAX,
            own == data::attr_views(first[record as int].attributes@),
            scope == captures::capture_views(context@),
            want == resolved(first, scope, own),
            same_but_fields(first, data.definitions@),
            fields(data.definitions@) == fields(first).update(
                record as int,
                Seq::new(
                    own.len(),
                    |j: int|
                        if j < i {
                            want[j]
                        } else {
                            own[j]
                        },
                ),
            ),
        decreases n - i,
    {
        let ghost now = data.definitions@;
        let ghost half = Seq::new(
            own.len(),
            |j: int|
                if j < i {
                    want[j]
                } else {
                    own[j]
                },
        );
        assert(fields(now)[record as int] == half);
        assert(data::attr_views(now[record as int].attributes@)[i as int] == own[i as int]);
        let ghost next = Seq::new(
            own.len(),
            |j: int|
                if j < i + 1 {
                    want[j]
                } else {
                    own[j]
                },
        );
        let mut found: Option<Type> = None;
        if data.definitions[record].attributes[i].typedef.is_unknown() {
            match captures::find_capture(
                context,
                data.definitions[record].attributes[i].name.as_str(),
            ) {
                Some(t) => {
                    if !t.is_unknown() {
                        proof {
                            attr_type_by_name(first, now, t@);
                        }
                        found = Some(closure_attr_type(data, t));
                    }
                },
                None => {},
            }
        }
        match found {
            Some(tp) => {
                let ghost t = tp@;
                assert(want[i as int] == (data::AttrView { typedef: t, ..own[i as int] }));
                retype(data, record, i, tp);
                assert(half.update(i as int, want[i as int]) =~= next);
                proof {
                    same_but_fields_twice(first, now, data.definitions@);
                }
            },
            None => {
                assert(want[i as int] == own[i as int]);
                assert(half =~= next);
            },
        }
        assert(fields(data.definitions@) =~= fields(first).update(record as int, next));
        i = i + 1;
    }
    assert(want =~= Seq::new(
        own.len(),
        |j: int|
            if j < i {
                want[j]
            } else {
                own[j]
            },
    ));
}

/// Give the fields of a closure record that the first pass left without a type the
/// types of the enclosing scope.  Answers whether the record has to be laid out
/// now: it has no layout yet, and no field is left without a type.
pub fn resolve_forward_captures(
    data: &mut Data,
    record: u32,
    context: &Vec<Capture>,
    first_pass: bool,
) -> (lay_out: bool)
    requires
        old(data).definitions.len() <= u32::MAX,
    ensures
        same_but_fields(old(data).definitions@, final(data).definitions@),
        ({
            let defs = old(data).definitions@;
            if first_pass || record >= defs.len() || all_known(
                data::attr_views(defs[record as int].attributes@),
            ) {
                fields(final(data).definitions@) == fields(defs) && !lay_out
            } else {
                let s = resolved(
                    defs,
                    captures::capture_views(context@),
                    data::attr_views(defs[record as int].attributes@),
                );
                &&& fields(final(data).definitions@) == fields(defs).update(record as int, s)
                &&& lay_out == (defs[record as int].known_type == u16::MAX && all_known(s))
            }
        }),
{
    if first_pass || record as usize >= data.definitions.len() {
        return false;
    }
    let r: usize = record as usize;
    if fields_known(&data.definitions[r].attributes) {
        return false;
    }
    let ghost defs = data.definitions@;
    resolve_fields(data, r, context);
    assert(fields(data.definitions@)[record as int] == data::attr_views(
        data.definitions@[record as int].attributes@,
    ));
    assert(data.definitions@[record as int].known_type == defs[record as int].known_type);
    data.definitions[r].known_type == u16::MAX && fields_known(&data.definitions[r].attributes)
}

fn fields_known(attrs: &Vec<Attribute>) -> (r: bool)
    ensures
        r == all_known(data::attr_views(attrs@)),
{
    let mut i: usize = 0;
    while i < attrs.len()
        invariant
            i <= attrs.len(),
            forall|j: int|
                0 <= j < i ==> !types::unknown((#[trigger] data::attr_views(attrs@)[j]).typedef),
        decreases attrs.len() - i,
    {
        if attrs[i].typedef.is_unknown() {
            assert(types::unknown(data::attr_views(attrs@)[i as int].typedef));
            return false;
        }
        i = i + 1;
    }
    true
}

/// The field that a closure record has for a capture.
pub open spec fn record_field(
    defs: Seq<Definition>,
    c: (Seq<char>, types::Ty),
) -> data::AttrView {
    data::AttrView {
        name: c.0,
        typedef: attr_type(defs, c.1),
        hidden: false,
        nullable: true,
        work_buffer: false,
    }
}

/// The fields of the closure record for a list of captures.
pub open spec fn record_fields(
    defs: Seq<Definition>,
    captured: Seq<(Seq<char>, types::Ty)>,
) -> Seq<data::AttrView> {
    Seq::new(captured.len(), |i: int| record_field(defs, captured[i]))
}

/// The name of the closure record of a lambda.
pub open spec fn record_name(lambda: Seq<char>) -> Seq<char> {
    text::with_replaced(lambda, "__lambda_"@, "__closure_"@)
}

fn make_record(data: &Data, name: &str, captured: &Vec<Capture>) -> (def: Definition)
    requires
        data.definitions.len() <= u32::MAX,
    ensures
        data::fresh_def(def, name@, DefType::Struct),
        data::attr_views(def.attributes@) == record_fields(
            data.definitions@,
            captures::capture_views(captured@),
        ),
{
    let ghost defs = data.definitions@;
    let ghost all = captures::capture_views(captured@);
    let mut def: Definition = Definition::new(name, DefType::Struct);
    let mut attrs: Vec<Attribute> = Vec::new();
    let mut i: usize = 0;
    while i < captured.len()
        invariant
            i <= captured.len(),
            data.definitions.len() <= u32::MAX,
            defs == data.definitions@,
            all == captures::capture_views(captured@),
            attrs.len() == i,
            forall|j: int| 0 <= j < i ==> (#[trigger] attrs@[j])@ == record_field(defs, all[j]),
        decreases captured.len() - i,
    {
        attrs.push(
            Attribute {
                name: captured[i].name.clone(),
                typedef: closure_attr_type(data, &captured[i].tp),
                hidden: false,
                nullable: true,
                work_buffer: false,
            },
        );
        i = i + 1;
    }
    assert(data::attr_views(attrs@) =~= record_fields(defs, all));
    def.attributes = attrs;
    def
}

/// Define the record of what a lambda captures in the first pass, find it again in
/// later ones, and note it on the lambda.
pub fn synthesize_closure_record(
    data: &mut Data,
    lambda: u32,
    lambda_name: &str,
    captured: &Vec<Capture>,
    first_pass: bool,
)
    requires
        lambda < old(data).definitions.len() < u32::MAX,
    ensures
        ({
            let defs = old(data).definitions@;
            let now = final(data).definitions@;
            let name = record_name(lambda_name@);
            let found = data::def_from(defs, name, 0);
            &&& first_pass ==> now.len() == defs.len() + 1 && data::fresh_def(
                now[defs.len() as int],
                name,
                DefType::Struct,
            ) && data::attr_views(now[defs.len() as int].attributes@) == record_fields(
                defs,
                captures::capture_views(captured@),
            )
            &&& !first_pass ==> now.len() == defs.len()
            &&& forall|d: int| 0 <= d < defs.len() && d != lambda ==> #[trigger] now[d] == defs[d]
            &&& now[lambda as int] == (Definition {
                closure_record: if first_pass {
                    defs.len() as u32
                } else if found != u32::MAX {
                    found
                } else {
                    defs[lambda as int].closure_record
                },
                ..defs[lambda as int]
            })
        }),
{
    let name: String = text::replace(lambda_name, "__lambda_", "__closure_");
    if first_pass {
        let record: Definition = make_record(data, name.as_str(), captured);
        let d: u32 = data.definitions.len() as u32;
        data.definitions.push(record);
        data.definitions[lambda as usize].closure_record = d;
    } else {
        let d: u32 = data.def_nr(name.as_str());
        if d != u32::MAX {
            data.definitions[lambda as usize].closure_record = d;
        }
    }
}

/// Captures whose cells are all defined miss none.
proof fn none_missing(
    defs: Seq<Definition>,
    captured: Seq<(Seq<char>, types::Ty)>,
    mutated: Seq<Seq<char>>,
    k: int,
)
    requires
        0 <= k <= captured.len(),
        forall|i: int|
            0 <= i < captured.len() && mutated.contains((#[trigger] captured[i]).0)
                && cells::cell_name(captured[i].1, defs) is Some ==> data::def_from(
                defs,
                cells::cell_name(captured[i].1, defs)->0,
                0,
            ) != u32::MAX,
    ensures
        missing_cells(defs, captured, mutated, k).len() == 0,
    decreases k,
{
    if k > 0 {
        none_missing(defs, captured, mutated, k - 1);
        let c = captured[k - 1];
        if mutated.contains(c.0) && cells::cell_name(c.1, defs) is Some {
            assert(data::def_from(defs, cells::cell_name(c.1, defs)->0, 0) != u32::MAX);
        }
    }
}

/// Every cell that is missed is either defined or one of those listed.
proof fn each_listed(
    defs: Seq<Definition>,
    captured: Seq<(Seq<char>, types::Ty)>,
    mutated: Seq<Seq<char>>,
    k: int,
    i: int,
)
    requires
        0 <= i < k <= captured.len(),
        mutated.contains(captured[i].0),
        cells::cell_name(captured[i].1, defs) is Some,
        data::def_from(defs, cells::cell_name(captured[i].1, defs)->0, 0) == u32::MAX,
    ensures
        firsts(missing_cells(defs, captured, mutated, k)).contains(
            cells::cell_name(captured[i].1, defs)->0,
        ),
    decreases k,
{
    let before = missing_cells(defs, captured, mutated, k - 1);
    let now = missing_cells(defs, captured, mutated, k);
    let cell = cells::cell_name(captured[i].1, defs)->0;
    if i < k - 1 {
        each_listed(defs, captured, mutated, k - 1, i);
    }
    if firsts(before).contains(cell) {
        let j = choose|j: int| 0 <= j < firsts(before).len() && firsts(before)[j] == cell;
        assert(firsts(now)[j] == cell);
    } else {
        assert(firsts(now)[now.len() - 1] == cell);
    }
}

proof fn named_is_found(defs: Seq<Definition>, name: Seq<char>, from: int, i: int)
    requires
        0 <= from <= i < defs.len() <= u32::MAX,
        defs[i].name@ == name,
    ensures
        data::def_from(defs, name, from) != u32::MAX,
    decreases i - from,
{
    if defs[from].name@ != name {
        named_is_found(defs, name, from + 1, i);
    }
}

/// Once the missing cells are defined none is missing: defining them again adds
/// nothing.
pub proof fn cells_are_defined_once(
    defs: Seq<Definition>,
    now: Seq<Definition>,
    captured: Seq<(Seq<char>, types::Ty)>,
    mutated: Seq<Seq<char>>,
)
    requires
        ({
            let new = missing_cells(defs, captured, mutated, captured.len() as int);
            &&& now.len() == defs.len() + new.len()
            &&& now.len() <= u32::MAX
            &&& forall|d: int| 0 <= d < defs.len() ==> #[trigger] now[d] == defs[d]
            &&& forall|i: int|
                0 <= i < new.len() ==> is_cell(#[trigger] now[defs.len() + i], new[i].0, new[i].1)
        }),
        // the captured types name definitions that exist
        forall|i: int|
            0 <= i < captured.len() ==> cells::cell_name((#[trigger] captured[i]).1, now)
                == cells::cell_name(captured[i].1, defs),
    ensures
        missing_cells(now, captured, mutated, captured.len() as int).len() == 0,
{
    let n = captured.len() as int;
    let new = missing_cells(defs, captured, mutated, n);
    assert forall|i: int|
        0 <= i < captured.len() && mutated.contains((#[trigger] captured[i]).0)
            && cells::cell_name(captured[i].1, now) is Some implies data::def_from(
        now,
        cells::cell_name(captured[i].1, now)->0,
        0,
    ) != u32::MAX by {
        let cell = cells::cell_name(captured[i].1, defs)->0;
        assert(cells::cell_name(captured[i].1, now) == cells::cell_name(captured[i].1, defs));
        if data::def_from(defs, cell, 0) != u32::MAX {
            data::found_definition(defs, cell, 0);
            let d = data::def_from(defs, cell, 0) as int;
            assert(now[d] == defs[d]);
            named_is_found(now, cell, 0, d);
        } else {
            each_listed(defs, captured, mutated, n, i);
            let j = choose|j: int| 0 <= j < firsts(new).len() && firsts(new)[j] == cell;
            assert(new[j].0 == cell);
            assert(is_cell(now[defs.len() + j], new[j].0, new[j].1));
            named_is_found(now, cell, 0, defs.len() + j);
        }
    }
    none_missing(now, captured, mutated, n);
}

} // verus!
