//! Definitions, their parameters and fields, and their variables.

use crate::ir::Value;
use crate::text;
use crate::types::{self, Type};
use vstd::prelude::*;

verus! {

/// What a definition defines.
#[derive(Clone, Copy, Debug, PartialEq, Eq, Structural)]
pub enum DefType {
    Unknown,
    Function,
    Struct,
    Enum,
    EnumValue,
    Vector,
    Type,
    Constant,
}

/// A parameter of a function or a field of a record.
#[derive(Debug)]
pub struct Attribute {
    pub name: String,
    pub typedef: Type,
    /// Supplied by the compiler rather than written in the source.
    pub hidden: bool,
    /// The value may be absent.
    pub nullable: bool,
    /// A buffer that the caller supplies.
    pub work_buffer: bool,
}

/// A variable of a function and what is known of it.
#[derive(Debug)]
pub struct Variable {
    pub name: String,
    pub tp: Type,
    pub argument: bool,
    /// A buffer that the caller of the function hands in.
    pub caller_hidden_buf: bool,
    /// Its storage is never released through it.
    pub skip_free: bool,
    pub compiler_generated: bool,
    /// One of the work references of the function.
    pub work_ref: bool,
    /// A work reference that serves as a caller-side work buffer.
    pub work_buffer_ref: bool,
    /// Its binding was turned into a view of another place.
    pub view_elided: bool,
    /// Its null initialisation allocates nothing.
    pub inline_ref: bool,
    pub captured: bool,
    pub defined: bool,
    /// A loop iterates this variable itself.
    pub iteration_source: bool,
    pub value_const: bool,
    pub const_binding: bool,
    pub used: bool,
    /// The argument that this local stands in for.
    pub promoted_from: Option<u16>,
    /// The variable that remembers what was handed in for a rebound parameter.
    pub rebind_orig: Option<u16>,
    /// The variables that view the storage of this one.
    pub viewers: Vec<u16>,
}

/// A name that stands for a variable other than the one that was given it.
#[derive(Debug)]
pub struct Rename {
    pub name: String,
    pub var: u16,
}

/// The variables of a function, in the order of their numbers.
#[derive(Debug)]
pub struct Function {
    pub variables: Vec<Variable>,
    pub renames: Vec<Rename>,
    /// The number of the last work reference that was given out.
    pub work_refs: u32,
    /// The number of the last record that backs a vector.
    pub backings: u32,
    /// The number of the last other variable that the compiler needed.
    pub uniques: u32,
}

/// What an operand of a one-operation function is.
#[derive(Clone, Copy, Debug, PartialEq, Eq, Structural)]
pub enum WrapperOperand {
    Param(u16),
    Other,
}

/// A function whose body is one operation.
#[derive(Debug)]
pub struct Wrapper {
    pub op: u32,
    pub operands: Vec<WrapperOperand>,
}

/// One definition.
#[derive(Debug)]
pub struct Definition {
    pub name: String,
    pub original_name: String,
    pub def_type: DefType,
    /// The body is written in the host language.
    pub rust_body: bool,
    /// The body is a native routine.
    pub native_body: bool,
    pub generic_instance: bool,
    pub synthetic: bool,
    /// Called by a harness rather than by code.
    pub corpus_entry: bool,
    /// The body is code of the language.
    pub loft_defined: bool,
    /// What it answers may be a view of an argument.
    pub borrowed_view: bool,
    /// An operation that answers a place inside its operand.
    pub projection: bool,
    /// The parameter through which it answers.
    pub return_buffer: Option<usize>,
    pub wrapper: Option<Wrapper>,
    pub code: Value,
    pub variables: Function,
    pub attributes: Vec<Attribute>,
    pub returned: Type,
    pub known_type: u16,
    /// The record of captured values, `u32::MAX` for none.
    pub closure_record: u32,
    pub mutated_captures: Vec<String>,
    pub scalars_to_box: Vec<String>,
}

/// All definitions, in the order of their numbers.
#[derive(Debug)]
pub struct Data {
    pub definitions: Vec<Definition>,
}

/// A variable as a value.
pub struct VarView {
    pub name: Seq<char>,
    pub tp: types::Ty,
    pub argument: bool,
    pub caller_hidden_buf: bool,
    pub skip_free: bool,
    pub compiler_generated: bool,
    pub work_ref: bool,
    pub work_buffer_ref: bool,
    pub view_elided: bool,
    pub inline_ref: bool,
    pub captured: bool,
    pub defined: bool,
    pub iteration_source: bool,
    pub value_const: bool,
    pub const_binding: bool,
    pub used: bool,
    pub promoted_from: Option<u16>,
    pub rebind_orig: Option<u16>,
    pub viewers: Seq<u16>,
}

/// The variables of a function as values.
pub struct FnView {
    pub vars: Seq<VarView>,
    pub renames: Seq<(Seq<char>, u16)>,
    pub work_refs: u32,
    pub backings: u32,
    pub uniques: u32,
}

/// A parameter or field as a value.
pub struct AttrView {
    pub name: Seq<char>,
    pub typedef: types::Ty,
    pub hidden: bool,
    pub nullable: bool,
    pub work_buffer: bool,
}

/// A variable of which nothing more is known.
pub open spec fn plain_var(name: Seq<char>, tp: types::Ty) -> VarView {
    VarView {
        name,
        tp,
        argument: false,
        caller_hidden_buf: false,
        skip_free: false,
        compiler_generated: false,
        work_ref: false,
        work_buffer_ref: false,
        view_elided: false,
        inline_ref: false,
        captured: false,
        defined: false,
        iteration_source: false,
        value_const: false,
        const_binding: false,
        used: false,
        promoted_from: None,
        rebind_orig: None,
        viewers: Seq::empty(),
    }
}

/// The variable that the last of the first `n` renamings of `name` gives it.
pub open spec fn renamed_in(renames: Seq<(Seq<char>, u16)>, name: Seq<char>, n: int) -> Option<u16>
    decreases n,
{
    if n <= 0 || n > renames.len() {
        None
    } else if renames[n - 1].0 == name {
        Some(renames[n - 1].1)
    } else {
        renamed_in(renames, name, n - 1)
    }
}

/// The first variable from `from` on that is called `name`.
pub open spec fn named_from(vars: Seq<VarView>, name: Seq<char>, from: int) -> u16
    decreases vars.len() - from,
{
    if from < 0 || from >= vars.len() {
        u16::MAX
    } else if vars[from].name == name {
        from as u16
    } else {
        named_from(vars, name, from + 1)
    }
}

/// The variable that `name` stands for; `u16::MAX` when there is none.
pub open spec fn named_in(f: FnView, name: Seq<char>) -> u16 {
    match renamed_in(f.renames, name, f.renames.len() as int) {
        Some(v) => v,
        None => named_from(f.vars, name, 0),
    }
}

/// The variables with another one in the place of `v`.
pub open spec fn with_var(f: FnView, v: u16, var: VarView) -> FnView {
    FnView { vars: f.vars.update(v as int, var), ..f }
}

/// The number behind `n`, as far as there is one.
pub open spec fn next_number(n: u32) -> u32 {
    if n < u32::MAX {
        (n + 1) as u32
    } else {
        n
    }
}

fn number_behind(n: u32) -> (next: u32)
    ensures
        next == next_number(n),
{
    if n < u32::MAX {
        n + 1
    } else {
        n
    }
}

/// The variables with one more that the compiler needs, numbered behind a prefix.
pub open spec fn created(f: FnView, prefix: Seq<char>, tp: types::Ty) -> FnView {
    FnView {
        vars: f.vars.push(
            VarView {
                compiler_generated: true,
                ..plain_var(prefix + text::decimal_of(next_number(f.uniques) as nat), tp)
            },
        ),
        uniques: next_number(f.uniques),
        ..f
    }
}

/// The variables with one more record that backs a vector.
pub open spec fn backed(f: FnView, tp: types::Ty) -> FnView {
    FnView {
        vars: f.vars.push(
            VarView {
                compiler_generated: true,
                ..plain_var("__vdb_"@ + text::decimal_of(next_number(f.backings) as nat), tp)
            },
        ),
        backings: next_number(f.backings),
        ..f
    }
}

/// The variables with `v` depending on one more.
pub open spec fn with_depend(f: FnView, v: u16, on: u16) -> FnView {
    with_var(
        f,
        v,
        VarView { tp: types::depending_on(f.vars[v as int].tp, on), ..f.vars[v as int] },
    )
}

/// The next work reference of a function.
pub open spec fn work_ref_var(f: FnView, tp: types::Ty) -> VarView {
    VarView {
        work_ref: true,
        compiler_generated: true,
        ..plain_var("__ref_"@ + text::decimal_of(next_number(f.work_refs) as nat), tp)
    }
}

/// The variables with one more work reference.
pub open spec fn minted(f: FnView, tp: types::Ty) -> FnView {
    FnView {
        vars: f.vars.push(work_ref_var(f, tp)),
        work_refs: next_number(f.work_refs),
        ..f
    }
}

/// The variables of a list as values.
pub open spec fn var_views(s: Seq<Variable>) -> Seq<VarView> {
    Seq::new(s.len(), |i: int| s[i]@)
}

/// The renamings of a list as values.
pub open spec fn rename_views(s: Seq<Rename>) -> Seq<(Seq<char>, u16)> {
    Seq::new(s.len(), |i: int| (s[i].name@, s[i].var))
}

/// The parameters of a list as values.
pub open spec fn attr_views(s: Seq<Attribute>) -> Seq<AttrView> {
    Seq::new(s.len(), |i: int| s[i]@)
}

impl Attribute {
    /// The parameter as a value.
    pub open spec fn view(&self) -> AttrView {
        AttrView {
            name: self.name@,
            typedef: self.typedef@,
            hidden: self.hidden,
            nullable: self.nullable,
            work_buffer: self.work_buffer,
        }
    }
}

impl Variable {
    /// The variable as a value.
    pub open spec fn view(&self) -> VarView {
        VarView {
            name: self.name@,
            tp: self.tp@,
            argument: self.argument,
            caller_hidden_buf: self.caller_hidden_buf,
            skip_free: self.skip_free,
            compiler_generated: self.compiler_generated,
            work_ref: self.work_ref,
            work_buffer_ref: self.work_buffer_ref,
            view_elided: self.view_elided,
            inline_ref: self.inline_ref,
            captured: self.captured,
            defined: self.defined,
            iteration_source: self.iteration_source,
            value_const: self.value_const,
            const_binding: self.const_binding,
            used: self.used,
            promoted_from: self.promoted_from,
            rebind_orig: self.rebind_orig,
            viewers: self.viewers@,
        }
    }

    /// A variable of which nothing more is known.
    pub fn plain(name: String, tp: Type) -> (v: Variable)
        ensures
            v@ == plain_var(name@, tp@),
    {
        Variable {
            name,
            tp,
            argument: false,
            caller_hidden_buf: false,
            skip_free: false,
            compiler_generated: false,
            work_ref: false,
            work_buffer_ref: false,
            view_elided: false,
            inline_ref: false,
            captured: false,
            defined: false,
            iteration_source: false,
            value_const: false,
            const_binding: false,
            used: false,
            promoted_from: None,
            rebind_orig: None,
            viewers: Vec::new(),
        }
    }

    /// The same variable again.
    pub fn copy(&self) -> (v: Variable)
        ensures
            v@ == self@,
    {
        Variable {
            name: self.name.clone(),
            tp: self.tp.copy(),
            argument: self.argument,
            caller_hidden_buf: self.caller_hidden_buf,
            skip_free: self.skip_free,
            compiler_generated: self.compiler_generated,
            work_ref: self.work_ref,
            work_buffer_ref: self.work_buffer_ref,
            view_elided: self.view_elided,
            inline_ref: self.inline_ref,
            captured: self.captured,
            defined: self.defined,
            iteration_source: self.iteration_source,
            value_const: self.value_const,
            const_binding: self.const_binding,
            used: self.used,
            promoted_from: self.promoted_from,
            rebind_orig: self.rebind_orig,
            viewers: types::copy_vars(&self.viewers),
        }
    }
}

impl Function {
    /// The variables as values.
    pub open spec fn view(&self) -> FnView {
        FnView {
            vars: var_views(self.variables@),
            renames: rename_views(self.renames@),
            work_refs: self.work_refs,
            backings: self.backings,
            uniques: self.uniques,
        }
    }

    /// The variable that `name` stands for; `u16::MAX` when there is none.
    pub fn lookup(&self, name: &str) -> (v: u16)
        requires
            self.variables.len() <= u16::MAX,
        ensures
            v == named_in(self@, name@),
    {
        let mut n: usize = self.renames.len();
        while n > 0
            invariant
                n <= self.renames.len(),
                renamed_in(self@.renames, name@, self.renames.len() as int) == renamed_in(
                    self@.renames,
                    name@,
                    n as int,
                ),
            decreases n,
        {
            if text::same(self.renames[n - 1].name.as_str(), name) {
                return self.renames[n - 1].var;
            }
            n = n - 1;
        }
        let mut i: usize = 0;
        while i < self.variables.len()
            invariant
                i <= self.variables.len() <= u16::MAX,
                renamed_in(self@.renames, name@, self.renames.len() as int) is None,
                named_from(self@.vars, name@, 0) == named_from(self@.vars, name@, i as int),
            decreases self.variables.len() - i,
        {
            if text::same(self.variables[i].name.as_str(), name) {
                return i as u16;
            }
            i = i + 1;
        }
        u16::MAX
    }

    /// Add a variable.
    pub fn add_variable(&mut self, var: Variable) -> (v: u16)
        requires
            old(self).variables.len() < u16::MAX,
        ensures
            final(self)@ == (FnView { vars: old(self)@.vars.push(var@), ..old(self)@ }),
            v == old(self).variables.len(),
            final(self).variables.len() == old(self).variables.len() + 1,
    {
        let ghost was = self@;
        let v: u16 = self.variables.len() as u16;
        self.variables.push(var);
        assert(self@.vars =~= was.vars.push(var@));
        v
    }

    /// Let `name` stand for variable `v` from here on.
    pub fn remap_name(&mut self, name: &str, v: u16)
        ensures
            final(self)@ == (FnView {
                renames: old(self)@.renames.push((name@, v)),
                ..old(self)@
            }),
            final(self).variables.len() == old(self).variables.len(),
    {
        let ghost was = self@;
        self.renames.push(Rename { name: name.to_owned(), var: v });
        assert(self@.renames =~= was.renames.push((name@, v)));
    }

    /// Put another variable in the place of `v`.
    pub fn replace_var(&mut self, v: u16, var: Variable)
        requires
            v < old(self).variables.len(),
        ensures
            final(self)@ == with_var(old(self)@, v, var@),
            final(self).variables.len() == old(self).variables.len(),
    {
        let ghost was = self@;
        self.variables.set(v as usize, var);
        assert(self@.vars =~= was.vars.update(v as int, var@));
    }

    /// Make variable `v` an argument.
    pub fn become_argument(&mut self, v: u16)
        requires
            v < old(self).variables.len(),
        ensures
            final(self)@ == with_var(
                old(self)@,
                v,
                (VarView { argument: true, ..old(self)@.vars[v as int] }),
            ),
            final(self).variables.len() == old(self).variables.len(),
    {
        let mut var: Variable = self.variables[v as usize].copy();
        var.argument = true;
        self.replace_var(v, var);
    }

    /// The null initialisation of `v` allocates nothing.
    pub fn mark_inline_ref(&mut self, v: u16)
        requires
            v < old(self).variables.len(),
        ensures
            final(self)@ == with_var(
                old(self)@,
                v,
                (VarView { inline_ref: true, ..old(self)@.vars[v as int] }),
            ),
            final(self).variables.len() == old(self).variables.len(),
    {
        let mut var: Variable = self.variables[v as usize].copy();
        var.inline_ref = true;
        self.replace_var(v, var);
    }

    /// The storage of `v` is never released through it.
    pub fn set_skip_free(&mut self, v: u16)
        requires
            v < old(self).variables.len(),
        ensures
            final(self)@ == with_var(
                old(self)@,
                v,
                (VarView { skip_free: true, ..old(self)@.vars[v as int] }),
            ),
            final(self).variables.len() == old(self).variables.len(),
    {
        let mut var: Variable = self.variables[v as usize].copy();
        var.skip_free = true;
        self.replace_var(v, var);
    }

    /// Variable `v` serves as a caller-side work buffer.
    pub fn mark_work_buffer_ref(&mut self, v: u16)
        requires
            v < old(self).variables.len(),
        ensures
            final(self)@ == with_var(
                old(self)@,
                v,
                (VarView { work_buffer_ref: true, ..old(self)@.vars[v as int] }),
            ),
            final(self).variables.len() == old(self).variables.len(),
    {
        let mut var: Variable = self.variables[v as usize].copy();
        var.work_buffer_ref = true;
        self.replace_var(v, var);
    }

    /// Variable `w` remembers what was handed in for `v`.
    pub fn set_rebind_orig(&mut self, v: u16, w: u16)
        requires
            v < old(self).variables.len(),
        ensures
            final(self)@ == with_var(
                old(self)@,
                v,
                (VarView { rebind_orig: Some(w), ..old(self)@.vars[v as int] }),
            ),
            final(self).variables.len() == old(self).variables.len(),
    {
        let mut var: Variable = self.variables[v as usize].copy();
        var.rebind_orig = Some(w);
        self.replace_var(v, var);
    }

    /// Variable `v` has been given a value.
    pub fn mark_defined(&mut self, v: u16)
        requires
            v < old(self).variables.len(),
        ensures
            final(self)@ == with_var(
                old(self)@,
                v,
                (VarView { defined: true, ..old(self)@.vars[v as int] }),
            ),
            final(self).variables.len() == old(self).variables.len(),
    {
        let mut var: Variable = self.variables[v as usize].copy();
        var.defined = true;
        self.replace_var(v, var);
    }

    /// A loop iterates variable `v` itself.
    pub fn mark_iteration_source(&mut self, v: u16)
        requires
            v < old(self).variables.len(),
        ensures
            final(self)@ == with_var(
                old(self)@,
                v,
                (VarView { iteration_source: true, ..old(self)@.vars[v as int] }),
            ),
            final(self).variables.len() == old(self).variables.len(),
    {
        let mut var: Variable = self.variables[v as usize].copy();
        var.iteration_source = true;
        self.replace_var(v, var);
    }

    /// Variable `v` is used.
    pub fn mark_used(&mut self, v: u16)
        requires
            v < old(self).variables.len(),
        ensures
            final(self)@ == with_var(
                old(self)@,
                v,
                (VarView { used: true, ..old(self)@.vars[v as int] }),
            ),
            final(self).variables.len() == old(self).variables.len(),
    {
        let mut var: Variable = self.variables[v as usize].copy();
        var.used = true;
        self.replace_var(v, var);
    }

    /// Give variable `v` another type.
    pub fn set_type(&mut self, v: u16, tp: Type)
        requires
            v < old(self).variables.len(),
        ensures
            final(self)@ == with_var(
                old(self)@,
                v,
                (VarView { tp: tp@, ..old(self)@.vars[v as int] }),
            ),
            final(self).variables.len() == old(self).variables.len(),
    {
        let mut var: Variable = self.variables[v as usize].copy();
        var.tp = tp;
        self.replace_var(v, var);
    }

    /// Variable `v` is captured by a closure.
    pub fn set_captured(&mut self, v: u16)
        requires
            v < old(self).variables.len(),
        ensures
            final(self)@ == with_var(
                old(self)@,
                v,
                (VarView { captured: true, ..old(self)@.vars[v as int] }),
            ),
            final(self).variables.len() == old(self).variables.len(),
    {
        let mut var: Variable = self.variables[v as usize].copy();
        var.captured = true;
        self.replace_var(v, var);
    }

    /// Variable `v` is one of the work references.
    pub fn add_to_work_refs(&mut self, v: u16)
        requires
            v < old(self).variables.len(),
        ensures
            final(self)@ == with_var(
                old(self)@,
                v,
                (VarView { work_ref: true, ..old(self)@.vars[v as int] }),
            ),
            final(self).variables.len() == old(self).variables.len(),
    {
        let mut var: Variable = self.variables[v as usize].copy();
        var.work_ref = true;
        self.replace_var(v, var);
    }

    /// Let the value of `v` depend on another variable.
    pub fn depend(&mut self, v: u16, on: u16)
        requires
            v < old(self).variables.len(),
        ensures
            final(self)@ == with_depend(old(self)@, v, on),
            final(self).variables.len() == old(self).variables.len(),
    {
        assert(self@.vars[v as int] == self.variables@[v as int]@);
        let tp: Type = self.variables[v as usize].tp.depending(on);
        self.set_type(v, tp);
    }

    /// Add a variable that the compiler needs, numbered behind a prefix.
    pub fn create(&mut self, prefix: &str, tp: Type) -> (v: u16)
        requires
            old(self).variables.len() < u16::MAX,
        ensures
            final(self)@ == created(old(self)@, prefix@, tp@),
            v == old(self).variables.len(),
            final(self).variables.len() == old(self).variables.len() + 1,
    {
        let ghost was = self@;
        let next: u32 = number_behind(self.uniques);
        let number: String = text::decimal(next as u64);
        let mut var: Variable = Variable::plain(text::join(prefix, number.as_str()), tp);
        var.compiler_generated = true;
        let v: u16 = self.variables.len() as u16;
        self.variables.push(var);
        self.uniques = next;
        assert(self@.vars =~= created(was, prefix@, tp@).vars);
        v
    }

    /// Add a record that backs a vector.
    pub fn create_backing(&mut self, tp: Type) -> (v: u16)
        requires
            old(self).variables.len() < u16::MAX,
        ensures
            final(self)@ == backed(old(self)@, tp@),
            v == old(self).variables.len(),
            final(self).variables.len() == old(self).variables.len() + 1,
    {
        let ghost was = self@;
        let next: u32 = number_behind(self.backings);
        let number: String = text::decimal(next as u64);
        let mut var: Variable = Variable::plain(text::join("__vdb_", number.as_str()), tp);
        var.compiler_generated = true;
        let v: u16 = self.variables.len() as u16;
        self.variables.push(var);
        self.backings = next;
        assert(self@.vars =~= backed(was, tp@).vars);
        v
    }

    /// Add a work reference of a type.
    pub fn mint(&mut self, tp: Type) -> (v: u16)
        requires
            old(self).variables.len() < u16::MAX,
        ensures
            final(self)@ == minted(old(self)@, tp@),
            v == old(self).variables.len(),
            final(self).variables.len() == old(self).variables.len() + 1,
    {
        let ghost was = self@;
        let next: u32 = number_behind(self.work_refs);
        let number: String = text::decimal(next as u64);
        let mut var: Variable = Variable::plain(text::join("__ref_", number.as_str()), tp);
        var.work_ref = true;
        var.compiler_generated = true;
        let v: u16 = self.variables.len() as u16;
        self.variables.push(var);
        self.work_refs = next;
        assert(self@.vars =~= minted(was, tp@).vars);
        v
    }

    /// The same variables again.
    pub fn copy(&self) -> (f: Function)
        ensures
            f@ == self@,
    {
        let mut variables: Vec<Variable> = Vec::new();
        let mut i: usize = 0;
        while i < self.variables.len()
            invariant
                i <= self.variables.len(),
                variables.len() == i,
                forall|j: int| 0 <= j < i ==> (#[trigger] variables@[j])@ == self.variables@[j]@,
            decreases self.variables.len() - i,
        {
            variables.push(self.variables[i].copy());
            i = i + 1;
        }
        assert(var_views(variables@) =~= var_views(self.variables@));
        let mut renames: Vec<Rename> = Vec::new();
        let mut k: usize = 0;
        while k < self.renames.len()
            invariant
                k <= self.renames.len(),
                renames.len() == k,
                forall|j: int|
                    0 <= j < k ==> (#[trigger] renames@[j]).name@ == self.renames@[j].name@
                        && renames@[j].var == self.renames@[j].var,
            decreases self.renames.len() - k,
        {
            renames.push(
                Rename { name: self.renames[k].name.clone(), var: self.renames[k].var },
            );
            k = k + 1;
        }
        assert(rename_views(renames@) =~= rename_views(self.renames@));
        Function {
            variables,
            renames,
            work_refs: self.work_refs,
            backings: self.backings,
            uniques: self.uniques,
        }
    }
}

/// The number of the first definition from `from` on that is called `name`;
/// `u32::MAX` when there is none.
pub open spec fn def_from(defs: Seq<Definition>, name: Seq<char>, from: int) -> u32
    decreases defs.len() - from,
{
    if from < 0 || from >= defs.len() {
        u32::MAX
    } else if defs[from].name@ == name {
        from as u32
    } else {
        def_from(defs, name, from + 1)
    }
}

/// The position of the first attribute from `from` on that is called `name`.
pub open spec fn attr_from(attrs: Seq<Attribute>, name: Seq<char>, from: int) -> Option<int>
    decreases attrs.len() - from,
{
    if from < 0 || from >= attrs.len() {
        None
    } else if attrs[from].name@ == name {
        Some(from)
    } else {
        attr_from(attrs, name, from + 1)
    }
}

/// The first variable from `from` on that is called `name`.
pub open spec fn var_from(vars: Seq<Variable>, name: Seq<char>, from: int) -> u16
    decreases vars.len() - from,
{
    if from < 0 || from >= vars.len() {
        u16::MAX
    } else if vars[from].name@ == name {
        from as u16
    } else {
        var_from(vars, name, from + 1)
    }
}

/// The variable that the last of the first `n` renamings of `name` gives it.
pub open spec fn renamed(renames: Seq<Rename>, name: Seq<char>, n: int) -> Option<u16>
    decreases n,
{
    if n <= 0 || n > renames.len() {
        None
    } else if renames[n - 1].name@ == name {
        Some(renames[n - 1].var)
    } else {
        renamed(renames, name, n - 1)
    }
}

impl Function {
    /// The variable that `name` stands for; `u16::MAX` when there is none.
    pub open spec fn var_named(&self, name: Seq<char>) -> u16 {
        match renamed(self.renames@, name, self.renames.len() as int) {
            Some(v) => v,
            None => var_from(self.variables@, name, 0),
        }
    }

    /// A function without variables.
    pub fn new() -> (f: Function)
        ensures
            f.variables.len() == 0,
            f.renames.len() == 0,
            f.work_refs == 0,
            f.backings == 0,
            f.uniques == 0,
    {
        Function {
            variables: Vec::new(),
            renames: Vec::new(),
            work_refs: 0,
            backings: 0,
            uniques: 0,
        }
    }

    /// How many variables there are.
    pub fn count(&self) -> (n: u16)
        requires
            self.variables.len() <= u16::MAX,
        ensures
            n == self.variables.len(),
    {
        self.variables.len() as u16
    }

    /// The variable that `name` stands for; `u16::MAX` when there is none.
    pub fn var(&self, name: &str) -> (v: u16)
        requires
            self.variables.len() <= u16::MAX,
        ensures
            v == self.var_named(name@),
    {
        let mut n: usize = self.renames.len();
        while n > 0
            invariant
                n <= self.renames.len(),
                renamed(self.renames@, name@, self.renames.len() as int) == renamed(
                    self.renames@,
                    name@,
                    n as int,
                ),
            decreases n,
        {
            if text::same(self.renames[n - 1].name.as_str(), name) {
                return self.renames[n - 1].var;
            }
            n = n - 1;
        }
        let mut i: usize = 0;
        while i < self.variables.len()
            invariant
                i <= self.variables.len() <= u16::MAX,
                renamed(self.renames@, name@, self.renames.len() as int) is None,
                var_from(self.variables@, name@, 0) == var_from(self.variables@, name@, i as int),
            decreases self.variables.len() - i,
        {
            if text::same(self.variables[i].name.as_str(), name) {
                return i as u16;
            }
            i = i + 1;
        }
        u16::MAX
    }

    /// The name of variable `v`.
    pub fn name(&self, v: u16) -> (name: &str)
        requires
            v < self.variables.len(),
        ensures
            name@ == self.variables@[v as int].name@,
    {
        self.variables[v as usize].name.as_str()
    }

    /// The type of variable `v`.
    pub fn tp(&self, v: u16) -> (tp: &Type)
        requires
            v < self.variables.len(),
        ensures
            *tp == self.variables@[v as int].tp,
    {
        &self.variables[v as usize].tp
    }

    /// Whether variable `v` exists and is an argument.
    pub open spec fn argument(&self, v: u16) -> bool {
        v < self.variables.len() && self.variables@[v as int].argument
    }

    /// Whether variable `v` exists and is an argument.
    pub fn is_argument(&self, v: u16) -> (r: bool)
        ensures
            r == self.argument(v),
    {
        (v as usize) < self.variables.len() && self.variables[v as usize].argument
    }
}

/// A definition of which no more is known than its name, its kind and its fields.
pub open spec fn fresh_def(def: Definition, name: Seq<char>, kind: DefType) -> bool {
    &&& def.name@ == name
    &&& def.original_name@ == name
    &&& def.def_type == kind
    &&& !def.rust_body
    &&& !def.native_body
    &&& !def.generic_instance
    &&& !def.synthetic
    &&& !def.corpus_entry
    &&& !def.loft_defined
    &&& !def.borrowed_view
    &&& !def.projection
    &&& def.return_buffer is None
    &&& def.wrapper is None
    &&& def.code is Null
    &&& def.variables.variables.len() == 0
    &&& def.variables.renames.len() == 0
    &&& def.returned is Void
    &&& def.known_type == u16::MAX
    &&& def.closure_record == u32::MAX
    &&& def.mutated_captures.len() == 0
    &&& def.scalars_to_box.len() == 0
}

impl Definition {
    /// A definition of which no more is known than its name and kind.
    pub fn new(name: &str, kind: DefType) -> (def: Definition)
        ensures
            fresh_def(def, name@, kind),
            def.attributes.len() == 0,
    {
        Definition {
            name: name.to_owned(),
            original_name: name.to_owned(),
            def_type: kind,
            rust_body: false,
            native_body: false,
            generic_instance: false,
            synthetic: false,
            corpus_entry: false,
            loft_defined: false,
            borrowed_view: false,
            projection: false,
            return_buffer: None,
            wrapper: None,
            code: Value::Null,
            variables: Function::new(),
            attributes: Vec::new(),
            returned: Type::Void,
            known_type: u16::MAX,
            closure_record: u32::MAX,
            mutated_captures: Vec::new(),
            scalars_to_box: Vec::new(),
        }
    }
}

impl Data {
    /// The number of the definition called `name`; `u32::MAX` when there is none.
    pub open spec fn named(&self, name: Seq<char>) -> u32 {
        def_from(self.definitions@, name, 0)
    }

    /// The number of the definition called `name`; `u32::MAX` when there is none.
    pub fn def_nr(&self, name: &str) -> (d: u32)
        requires
            self.definitions.len() <= u32::MAX,
        ensures
            d == self.named(name@),
    {
        let mut i: usize = 0;
        while i < self.definitions.len()
            invariant
                i <= self.definitions.len() <= u32::MAX,
                def_from(self.definitions@, name@, 0) == def_from(
                    self.definitions@,
                    name@,
                    i as int,
                ),
            decreases self.definitions.len() - i,
        {
            if text::same(self.definitions[i].name.as_str(), name) {
                return i as u32;
            }
            i = i + 1;
        }
        u32::MAX
    }

    /// Definition `d`.
    pub fn def(&self, d: u32) -> (def: &Definition)
        requires
            d < self.definitions.len(),
        ensures
            *def == self.definitions@[d as int],
    {
        &self.definitions[d as usize]
    }

    /// The position of the attribute of definition `d` called `name`.
    pub fn attr(&self, d: u32, name: &str) -> (a: Option<usize>)
        requires
            d < self.definitions.len(),
        ensures
            match a {
                Some(i) => attr_from(self.definitions@[d as int].attributes@, name@, 0) == Some(
                    i as int,
                ) && i < self.definitions@[d as int].attributes.len(),
                None => attr_from(self.definitions@[d as int].attributes@, name@, 0) is None,
            },
    {
        let attrs: &Vec<Attribute> = &self.definitions[d as usize].attributes;
        let mut i: usize = 0;
        while i < attrs.len()
            invariant
                i <= attrs.len(),
                d < self.definitions.len(),
                *attrs == self.definitions@[d as int].attributes,
                attr_from(attrs@, name@, 0) == attr_from(attrs@, name@, i as int),
            decreases attrs.len() - i,
        {
            if text::same(attrs[i].name.as_str(), name) {
                return Some(i);
            }
            i = i + 1;
        }
        None
    }
}

/// Definitions with the same names are found alike.
pub proof fn same_names_found_alike(
    a: Seq<Definition>,
    b: Seq<Definition>,
    name: Seq<char>,
    from: int,
)
    requires
        a.len() == b.len(),
        forall|d: int| 0 <= d < a.len() ==> (#[trigger] b[d]).name@ == a[d].name@,
    ensures
        def_from(a, name, from) == def_from(b, name, from),
    decreases a.len() - from,
{
    if 0 <= from < a.len() {
        assert(b[from].name@ == a[from].name@);
        same_names_found_alike(a, b, name, from + 1);
    }
}

/// A definition number that is found names a definition of that name.
pub proof fn found_definition(defs: Seq<Definition>, name: Seq<char>, from: int)
    requires
        0 <= from,
        defs.len() <= u32::MAX,
        def_from(defs, name, from) != u32::MAX,
    ensures
        from <= def_from(defs, name, from) < defs.len(),
        defs[def_from(defs, name, from) as int].name@ == name,
    decreases defs.len() - from,
{
    if from < defs.len() && defs[from].name@ != name {
        found_definition(defs, name, from + 1);
    }
}

} // verus!
