//! The intermediate code that the passes read and rewrite.
//!
//! `Value` is the code itself; its view is a tree of nodes, each a head and the
//! nodes below it in the order they are walked.

use crate::types::{self, Type};
use vstd::prelude::*;

verus! {

/// A sequence of statements with the type of its value.
#[derive(Debug)]
pub struct Block {
    pub name: String,
    pub operators: Vec<Value>,
    pub result: Type,
}

/// One node of the code.  Floating-point literals are held by their bits, and a
/// `Span` marks the source position of the node in it.
#[derive(Debug)]
pub enum Value {
    Null,
    Int(i32),
    Long(i64),
    Float(u64),
    Single(u32),
    Boolean(bool),
    Text(String),
    Enum(u8, u16),
    Keys(String),
    Line(u32),
    Var(u16),
    FnRefDnr(u16),
    Break(u16),
    Continue(u16),
    TupleGet(u16, u16),
    FnRef(i32, u16, Box<Type>),
    Assign(u16, Box<Value>),
    TuplePut(u16, u16, Box<Value>),
    Return(Box<Value>),
    Drop(Box<Value>),
    Yield(Box<Value>),
    Span(u32, Box<Value>),
    If(Box<Value>, Box<Value>, Box<Value>),
    Iter(u16, Box<Value>, Box<Value>, Box<Value>),
    Call(u32, Vec<Value>),
    CallRef(u16, Vec<Value>),
    Insert(Vec<Value>),
    Tuple(Vec<Value>),
    Parallel(Vec<Value>),
    Block(Box<Block>),
    Loop(Box<Block>),
}

/// What a node is, apart from the nodes below it.
pub enum Head {
    Null,
    Int(i32),
    Long(i64),
    Float(u64),
    Single(u32),
    Boolean(bool),
    Text(Seq<char>),
    Enum(u8, u16),
    Keys(Seq<char>),
    Line(u32),
    Var(u16),
    FnRefDnr(u16),
    Break(u16),
    Continue(u16),
    TupleGet(u16, u16),
    FnRef(i32, u16, types::Ty),
    Assign(u16),
    TuplePut(u16, u16),
    Return,
    Drop,
    Yield,
    Span(u32),
    If,
    Iter(u16),
    Call(u32),
    CallRef(u16),
    Insert,
    Tuple,
    Parallel,
    Block(Seq<char>, types::Ty),
    Loop(Seq<char>, types::Ty),
}

/// A node and the nodes below it.
pub struct Node {
    pub head: Head,
    pub kids: Seq<Node>,
}

/// A node without nodes below it.
pub open spec fn leaf(head: Head) -> Node {
    Node { head, kids: Seq::empty() }
}

/// The nodes of a list of values.
pub open spec fn views(s: Seq<Value>) -> Seq<Node>
    decreases s,
{
    Seq::new(
        s.len(),
        |i: int|
            if 0 <= i < s.len() {
                s[i].view()
            } else {
                leaf(Head::Null)
            },
    )
}

impl Value {
    /// The tree of the code.
    pub open spec fn view(&self) -> Node
        decreases self,
    {
        match *self {
            Value::Null => leaf(Head::Null),
            Value::Int(x) => leaf(Head::Int(x)),
            Value::Long(x) => leaf(Head::Long(x)),
            Value::Float(x) => leaf(Head::Float(x)),
            Value::Single(x) => leaf(Head::Single(x)),
            Value::Boolean(x) => leaf(Head::Boolean(x)),
            Value::Text(x) => leaf(Head::Text(x@)),
            Value::Enum(x, y) => leaf(Head::Enum(x, y)),
            Value::Keys(x) => leaf(Head::Keys(x@)),
            Value::Line(x) => leaf(Head::Line(x)),
            Value::Var(x) => leaf(Head::Var(x)),
            Value::FnRefDnr(x) => leaf(Head::FnRefDnr(x)),
            Value::Break(x) => leaf(Head::Break(x)),
            Value::Continue(x) => leaf(Head::Continue(x)),
            Value::TupleGet(x, y) => leaf(Head::TupleGet(x, y)),
            Value::FnRef(x, y, t) => leaf(Head::FnRef(x, y, t@)),
            Value::Assign(x, v) => Node { head: Head::Assign(x), kids: seq![v.view()] },
            Value::TuplePut(x, y, v) => Node { head: Head::TuplePut(x, y), kids: seq![v.view()] },
            Value::Return(v) => Node { head: Head::Return, kids: seq![v.view()] },
            Value::Drop(v) => Node { head: Head::Drop, kids: seq![v.view()] },
            Value::Yield(v) => Node { head: Head::Yield, kids: seq![v.view()] },
            Value::Span(x, v) => Node { head: Head::Span(x), kids: seq![v.view()] },
            Value::If(a, b, c) => Node {
                head: Head::If,
                kids: seq![a.view(), b.view(), c.view()],
            },
            Value::Iter(x, a, b, c) => Node {
                head: Head::Iter(x),
                kids: seq![a.view(), b.view(), c.view()],
            },
            Value::Call(d, s) => Node { head: Head::Call(d), kids: views(s@) },
            Value::CallRef(d, s) => Node { head: Head::CallRef(d), kids: views(s@) },
            Value::Insert(s) => Node { head: Head::Insert, kids: views(s@) },
            Value::Tuple(s) => Node { head: Head::Tuple, kids: views(s@) },
            Value::Parallel(s) => Node { head: Head::Parallel, kids: views(s@) },
            Value::Block(b) => Node {
                head: Head::Block(b.name@, b.result@),
                kids: views(b.operators@),
            },
            Value::Loop(b) => Node {
                head: Head::Loop(b.name@, b.result@),
                kids: views(b.operators@),
            },
        }
    }

    /// The nodes directly below this one, in walking order.
    pub fn children(&self) -> (kids: Vec<&Value>)
        ensures
            kids.len() == self@.kids.len(),
            forall|i: int| 0 <= i < kids.len() ==> (#[trigger] kids@[i])@ == self@.kids[i],
            forall|i: int| 0 <= i < kids.len() ==> decreases_to!(*self => *#[trigger] kids@[i]),
    {
        proof {
            reveal_with_fuel(views, 2);
            reveal_with_fuel(Value::view, 2);
        }
        let mut kids: Vec<&Value> = Vec::new();
        match self {
            Value::Assign(_, v)
            | Value::TuplePut(_, _, v)
            | Value::Return(v)
            | Value::Drop(v)
            | Value::Yield(v)
            | Value::Span(_, v) => {
                kids.push(&**v);
            },
            Value::If(a, b, c) | Value::Iter(_, a, b, c) => {
                kids.push(&**a);
                kids.push(&**b);
                kids.push(&**c);
            },
            Value::Call(_, s)
            | Value::CallRef(_, s)
            | Value::Insert(s)
            | Value::Tuple(s)
            | Value::Parallel(s) => {
                push_all(&mut kids, s);
            },
            Value::Block(b) | Value::Loop(b) => {
                push_all(&mut kids, &b.operators);
            },
            _ => {},
        }
        kids
    }

    /// The node of the same kind over other nodes.
    pub fn rebuild(&self, kids: Vec<Value>) -> (v: Value)
        requires
            kids.len() == self@.kids.len(),
        ensures
            v@ == (Node { head: self@.head, kids: views(kids@) }),
    {
        proof {
            reveal_with_fuel(views, 2);
            reveal_with_fuel(Value::view, 2);
            if kids.len() == 0 {
                assert(views(kids@) =~= Seq::<Node>::empty());
            }
        }
        match self {
            Value::Null => Value::Null,
            Value::Int(x) => Value::Int(*x),
            Value::Long(x) => Value::Long(*x),
            Value::Float(x) => Value::Float(*x),
            Value::Single(x) => Value::Single(*x),
            Value::Boolean(x) => Value::Boolean(*x),
            Value::Text(x) => Value::Text(x.clone()),
            Value::Enum(x, y) => Value::Enum(*x, *y),
            Value::Keys(x) => Value::Keys(x.clone()),
            Value::Line(x) => Value::Line(*x),
            Value::Var(x) => Value::Var(*x),
            Value::FnRefDnr(x) => Value::FnRefDnr(*x),
            Value::Break(x) => Value::Break(*x),
            Value::Continue(x) => Value::Continue(*x),
            Value::TupleGet(x, y) => Value::TupleGet(*x, *y),
            Value::FnRef(x, y, t) => Value::FnRef(*x, *y, Box::new(t.copy())),
            Value::Assign(x, _) => Value::Assign(*x, only(kids)),
            Value::TuplePut(x, y, _) => Value::TuplePut(*x, *y, only(kids)),
            Value::Return(_) => Value::Return(only(kids)),
            Value::Drop(_) => Value::Drop(only(kids)),
            Value::Yield(_) => Value::Yield(only(kids)),
            Value::Span(x, _) => Value::Span(*x, only(kids)),
            Value::If(_, _, _) => {
                let (a, b, c): (Box<Value>, Box<Value>, Box<Value>) = three(kids);
                Value::If(a, b, c)
            },
            Value::Iter(x, _, _, _) => {
                let (a, b, c): (Box<Value>, Box<Value>, Box<Value>) = three(kids);
                Value::Iter(*x, a, b, c)
            },
            Value::Call(d, _) => Value::Call(*d, kids),
            Value::CallRef(d, _) => Value::CallRef(*d, kids),
            Value::Insert(_) => Value::Insert(kids),
            Value::Tuple(_) => Value::Tuple(kids),
            Value::Parallel(_) => Value::Parallel(kids),
            Value::Block(b) => Value::Block(
                Box::new(Block { name: b.name.clone(), operators: kids, result: b.result.copy() }),
            ),
            Value::Loop(b) => Value::Loop(
                Box::new(Block { name: b.name.clone(), operators: kids, result: b.result.copy() }),
            ),
        }
    }

    /// The same code again.
    pub fn copy(&self) -> (v: Value)
        ensures
            v@ == self@,
        decreases self,
    {
        let kids: Vec<&Value> = self.children();
        let mut out: Vec<Value> = Vec::new();
        let mut i: usize = 0;
        while i < kids.len()
            invariant
                i <= kids.len(),
                out.len() == i,
                kids.len() == self@.kids.len(),
                forall|j: int| 0 <= j < kids.len() ==> (#[trigger] kids@[j])@ == self@.kids[j],
                forall|j: int| 0 <= j < kids.len() ==> decreases_to!(*self => *#[trigger] kids@[j]),
                forall|j: int| 0 <= j < i ==> (#[trigger] out@[j])@ == self@.kids[j],
            decreases kids.len() - i,
        {
            out.push(kids[i].copy());
            i = i + 1;
        }
        assert(views(out@) =~= self@.kids);
        self.rebuild(out)
    }

    /// The node under the source positions.
    pub fn unspan(&self) -> (v: &Value)
        ensures
            v@ == unspan(self@),
            !(v is Span),
            *v == *self || decreases_to!(*self => *v),
        decreases self,
    {
        match self {
            Value::Span(_, inner) => {
                assert(self@.kids[0] == inner@);
                inner.unspan()
            },
            _ => self,
        }
    }
}

/// How the view of a node is made up.
pub proof fn shape(v: Value)
    ensures
        v matches Value::Call(d, s) ==> v@ == (Node { head: Head::Call(d), kids: views(s@) }),
        v matches Value::CallRef(d, s) ==> v@ == (Node { head: Head::CallRef(d), kids: views(s@) }),
        v matches Value::Insert(s) ==> v@ == (Node { head: Head::Insert, kids: views(s@) }),
        v matches Value::Tuple(s) ==> v@ == (Node { head: Head::Tuple, kids: views(s@) }),
        v matches Value::Parallel(s) ==> v@ == (Node { head: Head::Parallel, kids: views(s@) }),
        v matches Value::Block(b) ==> v@ == (Node {
            head: Head::Block(b.name@, b.result@),
            kids: views(b.operators@),
        }),
        v matches Value::Loop(b) ==> v@ == (Node {
            head: Head::Loop(b.name@, b.result@),
            kids: views(b.operators@),
        }),
{
    reveal_with_fuel(views, 2);
    reveal_with_fuel(Value::view, 2);
}

/// The nodes of a list are those of its elements.
pub proof fn view_at(s: Seq<Value>)
    ensures
        views(s).len() == s.len(),
        forall|i: int| 0 <= i < s.len() ==> #[trigger] views(s)[i] == s[i]@,
{
}

/// The node under the source positions.
pub open spec fn unspan(n: Node) -> Node
    decreases n,
{
    if n.head is Span && n.kids.len() > 0 {
        unspan(n.kids[0])
    } else {
        n
    }
}

fn push_all<'a>(kids: &mut Vec<&'a Value>, s: &'a Vec<Value>)
    requires
        old(kids).len() == 0,
    ensures
        final(kids).len() == s.len(),
        forall|i: int| 0 <= i < s.len() ==> *(#[trigger] final(kids)@[i]) == s@[i],
        forall|i: int| 0 <= i < s.len() ==> decreases_to!(*s => *#[trigger] final(kids)@[i]),
{
    let mut i: usize = 0;
    while i < s.len()
        invariant
            i <= s.len(),
            kids.len() == i,
            forall|j: int| 0 <= j < i ==> *(#[trigger] kids@[j]) == s@[j],
        decreases s.len() - i,
    {
        kids.push(&s[i]);
        i = i + 1;
    }
    assert forall|i: int| 0 <= i < s.len() implies decreases_to!(*s => *#[trigger] kids@[i]) by {
        assert(decreases_to!(*s => s[i]));
    }
}

fn only(kids: Vec<Value>) -> (v: Box<Value>)
    requires
        kids.len() == 1,
    ensures
        views(kids@) == seq![v@],
{
    let mut kids = kids;
    let ghost was = kids@;
    let v: Value = kids.pop().unwrap();
    assert(views(was) =~= seq![v@]);
    Box::new(v)
}

fn three(kids: Vec<Value>) -> (v: (Box<Value>, Box<Value>, Box<Value>))
    requires
        kids.len() == 3,
    ensures
        views(kids@) == seq![v.0@, v.1@, v.2@],
{
    let mut kids = kids;
    let ghost was = kids@;
    let c: Value = kids.pop().unwrap();
    let b: Value = kids.pop().unwrap();
    let a: Value = kids.pop().unwrap();
    assert(views(was) =~= seq![a@, b@, c@]);
    (Box::new(a), Box::new(b), Box::new(c))
}


/// Whether `p` holds of the node or of one below it.
pub open spec fn any(n: Node, p: spec_fn(Node) -> bool) -> bool
    decreases n, 0int,
{
    p(n) || any_in(n.kids, p)
}

/// Whether `p` holds somewhere in one of the trees.
pub open spec fn any_in(s: Seq<Node>, p: spec_fn(Node) -> bool) -> bool
    decreases s, 1int,
{
    s.len() > 0 && (any_in(s.drop_last(), p) || any(s.last(), p))
}

/// How often `p` holds in the tree.
pub open spec fn count(n: Node, p: spec_fn(Node) -> bool) -> nat
    decreases n, 0int,
{
    count_in(n.kids, p) + if p(n) {
        1nat
    } else {
        0
    }
}

/// How often `p` holds in the trees.
pub open spec fn count_in(s: Seq<Node>, p: spec_fn(Node) -> bool) -> nat
    decreases s, 1int,
{
    if s.len() == 0 {
        0
    } else {
        count_in(s.drop_last(), p) + count(s.last(), p)
    }
}

pub proof fn any_step(s: Seq<Node>, p: spec_fn(Node) -> bool, i: int)
    requires
        0 <= i < s.len(),
    ensures
        any_in(s.take(i + 1), p) == (any_in(s.take(i), p) || any(s[i], p)),
{
    assert(s.take(i + 1).drop_last() =~= s.take(i));
}

pub proof fn any_prefix(s: Seq<Node>, p: spec_fn(Node) -> bool, i: int)
    requires
        0 <= i <= s.len(),
        any_in(s.take(i), p),
    ensures
        any_in(s, p),
    decreases s.len() - i,
{
    if i == s.len() {
        assert(s.take(i) =~= s);
    } else {
        any_step(s, p, i);
        any_prefix(s, p, i + 1);
    }
}

pub proof fn count_step(s: Seq<Node>, p: spec_fn(Node) -> bool, i: int)
    requires
        0 <= i < s.len(),
    ensures
        count_in(s.take(i + 1), p) == count_in(s.take(i), p) + count(s[i], p),
{
    assert(s.take(i + 1).drop_last() =~= s.take(i));
}

/// A tree in which `p` holds nowhere counts none, and one in which it holds
/// counts some.
pub proof fn any_counts(n: Node, p: spec_fn(Node) -> bool)
    ensures
        any(n, p) <==> count(n, p) > 0,
    decreases n, 0int,
{
    any_counts_in(n.kids, p);
}

proof fn any_counts_in(s: Seq<Node>, p: spec_fn(Node) -> bool)
    ensures
        any_in(s, p) <==> count_in(s, p) > 0,
    decreases s, 1int,
{
    if s.len() > 0 {
        any_counts_in(s.drop_last(), p);
        any_counts(s.last(), p);
    }
}

/// The variable number that a node carries, in whichever place it stands.
pub open spec fn var_of(h: Head) -> Option<u16> {
    match h {
        Head::Var(x)
        | Head::Assign(x)
        | Head::TupleGet(x, _)
        | Head::TuplePut(x, _)
        | Head::CallRef(x)
        | Head::FnRefDnr(x)
        | Head::Iter(x)
        | Head::FnRef(_, x, _) => Some(x),
        _ => None,
    }
}

/// What a node is after variables `a` and `b` have taken each other's numbers.
pub open spec fn swapped_head(h: Head, a: u16, b: u16) -> Head {
    match h {
        Head::Var(x) => Head::Var(types::swapped_var(x, a, b)),
        Head::Assign(x) => Head::Assign(types::swapped_var(x, a, b)),
        Head::TupleGet(x, i) => Head::TupleGet(types::swapped_var(x, a, b), i),
        Head::TuplePut(x, i) => Head::TuplePut(types::swapped_var(x, a, b), i),
        Head::CallRef(x) => Head::CallRef(types::swapped_var(x, a, b)),
        Head::FnRefDnr(x) => Head::FnRefDnr(types::swapped_var(x, a, b)),
        Head::Iter(x) => Head::Iter(types::swapped_var(x, a, b)),
        Head::FnRef(d, x, t) => Head::FnRef(
            d,
            types::swapped_var(x, a, b),
            types::swapped(t, a, b),
        ),
        Head::Block(name, t) => Head::Block(name, types::swapped(t, a, b)),
        Head::Loop(name, t) => Head::Loop(name, types::swapped(t, a, b)),
        _ => h,
    }
}

/// The code after variables `a` and `b` have taken each other's numbers.
pub open spec fn swapped(n: Node, a: u16, b: u16) -> Node
    decreases n,
{
    Node { head: swapped_head(n.head, a, b), kids: swapped_all(n.kids, a, b) }
}

/// A list of nodes after variables `a` and `b` have taken each other's numbers.
pub open spec fn swapped_all(s: Seq<Node>, a: u16, b: u16) -> Seq<Node>
    decreases s,
{
    Seq::new(
        s.len(),
        |i: int|
            if 0 <= i < s.len() {
                swapped(s[i], a, b)
            } else {
                leaf(Head::Null)
            },
    )
}

impl Value {
    /// The code with the numbers of variables `a` and `b` exchanged.
    pub fn swap_vars(&self, a: u16, b: u16) -> (v: Value)
        ensures
            v@ == swapped(self@, a, b),
        decreases self,
    {
        let kids: Vec<&Value> = self.children();
        let mut out: Vec<Value> = Vec::new();
        let mut i: usize = 0;
        while i < kids.len()
            invariant
                i <= kids.len(),
                out.len() == i,
                kids.len() == self@.kids.len(),
                forall|j: int| 0 <= j < kids.len() ==> (#[trigger] kids@[j])@ == self@.kids[j],
                forall|j: int| 0 <= j < kids.len() ==> decreases_to!(*self => *#[trigger] kids@[j]),
                forall|j: int|
                    0 <= j < i ==> (#[trigger] out@[j])@ == swapped(self@.kids[j], a, b),
            decreases kids.len() - i,
        {
            out.push(kids[i].swap_vars(a, b));
            i = i + 1;
        }
        assert(views(out@) =~= swapped_all(self@.kids, a, b));
        self.swap_head(a, b, out)
    }

    fn swap_head(&self, a: u16, b: u16, kids: Vec<Value>) -> (v: Value)
        requires
            kids.len() == self@.kids.len(),
        ensures
            v@ == (Node { head: swapped_head(self@.head, a, b), kids: views(kids@) }),
    {
        proof {
            reveal_with_fuel(views, 2);
            reveal_with_fuel(Value::view, 2);
            if kids.len() == 0 {
                assert(views(kids@) =~= Seq::<Node>::empty());
            }
        }
        match self {
            Value::Var(x) => Value::Var(types::swap_var(*x, a, b)),
            Value::Assign(x, _) => Value::Assign(types::swap_var(*x, a, b), only(kids)),
            Value::TupleGet(x, i) => Value::TupleGet(types::swap_var(*x, a, b), *i),
            Value::TuplePut(x, i, _) => Value::TuplePut(
                types::swap_var(*x, a, b),
                *i,
                only(kids),
            ),
            Value::CallRef(x, _) => Value::CallRef(types::swap_var(*x, a, b), kids),
            Value::FnRefDnr(x) => Value::FnRefDnr(types::swap_var(*x, a, b)),
            Value::Iter(x, _, _, _) => {
                let (p, q, r): (Box<Value>, Box<Value>, Box<Value>) = three(kids);
                Value::Iter(types::swap_var(*x, a, b), p, q, r)
            },
            Value::FnRef(d, x, t) => Value::FnRef(
                *d,
                types::swap_var(*x, a, b),
                Box::new(t.swap_vars(a, b)),
            ),
            Value::Block(bl) => Value::Block(
                Box::new(
                    Block {
                        name: bl.name.clone(),
                        operators: kids,
                        result: bl.result.swap_vars(a, b),
                    },
                ),
            ),
            Value::Loop(bl) => Value::Loop(
                Box::new(
                    Block {
                        name: bl.name.clone(),
                        operators: kids,
                        result: bl.result.swap_vars(a, b),
                    },
                ),
            ),
            _ => self.rebuild(kids),
        }
    }
}

/// The nodes that name variable `w`.
pub open spec fn names(w: u16) -> spec_fn(Node) -> bool {
    |n: Node| var_of(n.head) == Some(w)
}

/// Whether variable `w` is named anywhere in the tree.
pub open spec fn mentioned(n: Node, w: u16) -> bool {
    any(n, names(w))
}

/// The nodes that read variable `w`: every way of naming it but an assignment.
pub open spec fn reading(w: u16) -> spec_fn(Node) -> bool {
    |n: Node| var_of(n.head) == Some(w) && !(n.head is Assign)
}

/// Whether variable `w` is read anywhere in the tree.
pub open spec fn read(n: Node, w: u16) -> bool {
    any(n, reading(w))
}

impl Value {
    /// The variable number that this node carries.
    pub fn own_var(&self) -> (v: Option<u16>)
        ensures
            v == var_of(self@.head),
    {
        match self {
            Value::Var(x)
            | Value::Assign(x, _)
            | Value::TupleGet(x, _)
            | Value::TuplePut(x, _, _)
            | Value::CallRef(x, _)
            | Value::FnRefDnr(x)
            | Value::Iter(x, _, _, _)
            | Value::FnRef(_, x, _) => Some(*x),
            _ => None,
        }
    }

    /// Whether variable `w` is named anywhere in this code.
    pub fn mentions(&self, w: u16) -> (found: bool)
        ensures
            found == mentioned(self@, w),
        decreases self,
    {
        let own: Option<u16> = self.own_var();
        if own.is_some() && own.unwrap() == w {
            return true;
        }
        let kids: Vec<&Value> = self.children();
        let ghost p = names(w);
        let mut i: usize = 0;
        while i < kids.len()
            invariant
                i <= kids.len(),
                p == names(w),
                !p(self@),
                kids.len() == self@.kids.len(),
                forall|j: int| 0 <= j < kids.len() ==> (#[trigger] kids@[j])@ == self@.kids[j],
                forall|j: int| 0 <= j < kids.len() ==> decreases_to!(*self => *#[trigger] kids@[j]),
                !any_in(self@.kids.take(i as int), p),
            decreases kids.len() - i,
        {
            proof {
                any_step(self@.kids, p, i as int);
            }
            if kids[i].mentions(w) {
                proof {
                    any_prefix(self@.kids, p, i + 1);
                }
                return true;
            }
            i = i + 1;
        }
        assert(self@.kids.take(i as int) =~= self@.kids);
        false
    }

    /// Whether variable `w` is read anywhere in this code.
    pub fn reads_var(&self, w: u16) -> (found: bool)
        ensures
            found == read(self@, w),
        decreases self,
    {
        let own: Option<u16> = self.own_var();
        if own.is_some() && own.unwrap() == w && !self.is_assign() {
            return true;
        }
        let kids: Vec<&Value> = self.children();
        let ghost p = reading(w);
        let mut i: usize = 0;
        while i < kids.len()
            invariant
                i <= kids.len(),
                p == reading(w),
                !p(self@),
                kids.len() == self@.kids.len(),
                forall|j: int| 0 <= j < kids.len() ==> (#[trigger] kids@[j])@ == self@.kids[j],
                forall|j: int| 0 <= j < kids.len() ==> decreases_to!(*self => *#[trigger] kids@[j]),
                !any_in(self@.kids.take(i as int), p),
            decreases kids.len() - i,
        {
            proof {
                any_step(self@.kids, p, i as int);
            }
            if kids[i].reads_var(w) {
                proof {
                    any_prefix(self@.kids, p, i + 1);
                }
                return true;
            }
            i = i + 1;
        }
        assert(self@.kids.take(i as int) =~= self@.kids);
        false
    }

    fn is_assign(&self) -> (r: bool)
        ensures
            r == (self@.head is Assign),
    {
        match self {
            Value::Assign(_, _) => true,
            _ => false,
        }
    }

    /// Whether this is variable `w`, source positions aside.
    pub fn is_var(&self, w: u16) -> (r: bool)
        ensures
            r == (unspan(self@).head == Head::Var(w)),
    {
        match self.unspan() {
            Value::Var(x) => *x == w,
            _ => false,
        }
    }

    /// Whether this is the null value, source positions aside.
    pub fn is_null(&self) -> (r: bool)
        ensures
            r == (unspan(self@).head is Null),
    {
        match self.unspan() {
            Value::Null => true,
            _ => false,
        }
    }
}

/// Variable `x`.
pub open spec fn var(x: u16) -> Node {
    leaf(Head::Var(x))
}

/// A call of definition `d`.
pub open spec fn call(d: u32, args: Seq<Node>) -> Node {
    Node { head: Head::Call(d), kids: args }
}

/// The assignment of a value to variable `x`.
pub open spec fn assign(x: u16, value: Node) -> Node {
    Node { head: Head::Assign(x), kids: seq![value] }
}

/// Statements that stand in the place of one.
pub open spec fn insert(s: Seq<Node>) -> Node {
    Node { head: Head::Insert, kids: s }
}

/// A choice between two branches.
pub open spec fn choice(test: Node, yes: Node, no: Node) -> Node {
    Node { head: Head::If, kids: seq![test, yes, no] }
}

/// A sequence of statements with the type of its value.
pub open spec fn block(name: Seq<char>, s: Seq<Node>, result: types::Ty) -> Node {
    Node { head: Head::Block(name, result), kids: s }
}

/// A loop over a sequence of statements.
pub open spec fn looped(name: Seq<char>, s: Seq<Node>, result: types::Ty) -> Node {
    Node { head: Head::Loop(name, result), kids: s }
}

/// An integer literal.
pub open spec fn int_value(x: i32) -> Node {
    leaf(Head::Int(x))
}

pub fn list1(a: Value) -> (s: Vec<Value>)
    ensures
        views(s@) == seq![a@],
{
    let s: Vec<Value> = vec![a];
    assert(views(s@) =~= seq![a@]);
    s
}

pub fn list2(a: Value, b: Value) -> (s: Vec<Value>)
    ensures
        views(s@) == seq![a@, b@],
{
    let s: Vec<Value> = vec![a, b];
    assert(views(s@) =~= seq![a@, b@]);
    s
}

pub fn list3(a: Value, b: Value, c: Value) -> (s: Vec<Value>)
    ensures
        views(s@) == seq![a@, b@, c@],
{
    let s: Vec<Value> = vec![a, b, c];
    assert(views(s@) =~= seq![a@, b@, c@]);
    s
}

pub fn list4(a: Value, b: Value, c: Value, d: Value) -> (s: Vec<Value>)
    ensures
        views(s@) == seq![a@, b@, c@, d@],
{
    let s: Vec<Value> = vec![a, b, c, d];
    assert(views(s@) =~= seq![a@, b@, c@, d@]);
    s
}

/// A call of definition `d`.
pub fn make_call(d: u32, args: Vec<Value>) -> (v: Value)
    ensures
        v@ == call(d, views(args@)),
{
    let v = Value::Call(d, args);
    proof {
        shape(v);
    }
    v
}

/// The assignment of a value to variable `x`.
pub fn make_assign(x: u16, value: Value) -> (v: Value)
    ensures
        v@ == assign(x, value@),
{
    Value::Assign(x, Box::new(value))
}

/// The assignment of a value to part `i` of tuple `x`.
pub open spec fn put_part(x: u16, i: u16, value: Node) -> Node {
    Node { head: Head::TuplePut(x, i), kids: seq![value] }
}

/// The assignment of a value to part `i` of tuple `x`.
pub fn make_put_part(x: u16, i: u16, value: Value) -> (v: Value)
    ensures
        v@ == put_part(x, i, value@),
{
    Value::TuplePut(x, i, Box::new(value))
}

/// Statements that stand in the place of one.
pub fn make_insert(s: Vec<Value>) -> (v: Value)
    ensures
        v@ == insert(views(s@)),
{
    let v = Value::Insert(s);
    proof {
        shape(v);
    }
    v
}

/// A choice between two branches.
pub fn make_choice(test: Value, yes: Value, no: Value) -> (v: Value)
    ensures
        v@ == choice(test@, yes@, no@),
{
    Value::If(Box::new(test), Box::new(yes), Box::new(no))
}

/// A sequence of statements with the type of its value.
pub fn make_block(name: &str, s: Vec<Value>, result: Type) -> (v: Value)
    ensures
        v@ == block(name@, views(s@), result@),
{
    let v = Value::Block(Box::new(Block { name: name.to_owned(), operators: s, result }));
    proof {
        shape(v);
    }
    v
}

/// A loop over a sequence of statements.
pub fn make_loop(name: &str, s: Vec<Value>, result: Type) -> (v: Value)
    ensures
        v@ == looped(name@, views(s@), result@),
{
    let v = Value::Loop(Box::new(Block { name: name.to_owned(), operators: s, result }));
    proof {
        shape(v);
    }
    v
}

/// Put a value at the end of a list.
pub fn put(s: &mut Vec<Value>, v: Value)
    ensures
        views(final(s)@) == views(old(s)@).push(v@),
        final(s).len() == old(s).len() + 1,
{
    let ghost was = s@;
    s.push(v);
    assert(views(s@) =~= views(was).push(v@));
}

/// Put the values of a second list behind those of the first.
pub fn put_all(s: &mut Vec<Value>, more: Vec<Value>)
    ensures
        views(final(s)@) == views(old(s)@) + views(more@),
{
    let ghost was = s@;
    let ghost rest = more@;
    let mut more = more;
    s.append(&mut more);
    assert(s@ =~= was + rest);
    assert(views(s@) =~= views(was) + views(rest));
}

/// Put a value before those of a list.
pub fn put_first(s: &mut Vec<Value>, v: Value)
    ensures
        views(final(s)@) == seq![v@] + views(old(s)@),
        final(s).len() == old(s).len() + 1,
{
    let ghost was = s@;
    s.insert(0, v);
    assert(views(s@) =~= seq![v@] + views(was));
}

/// The same list again.
pub fn copy_all(s: &Vec<Value>) -> (out: Vec<Value>)
    ensures
        views(out@) == views(s@),
        out.len() == s.len(),
{
    let out: Vec<Value> = copy_range(s, 0, s.len());
    assert(views(s@).subrange(0, s.len() as int) =~= views(s@));
    out
}

/// The values from position `from` up to position `to`.
pub fn copy_range(s: &Vec<Value>, from: usize, to: usize) -> (out: Vec<Value>)
    requires
        from <= to <= s.len(),
    ensures
        views(out@) == views(s@).subrange(from as int, to as int),
        out.len() == to - from,
{
    let mut out: Vec<Value> = Vec::new();
    let mut i: usize = from;
    while i < to
        invariant
            from <= i <= to <= s.len(),
            out.len() == i - from,
            forall|j: int| 0 <= j < i - from ==> (#[trigger] out@[j])@ == s@[from + j]@,
        decreases to - i,
    {
        out.push(s[i].copy());
        i = i + 1;
    }
    assert(views(out@) =~= views(s@).subrange(from as int, to as int));
    out
}

/// Variable `x` once variable `from` is called `to`.
pub open spec fn renamed_var(x: u16, from: u16, to: u16) -> u16 {
    if x == from {
        to
    } else {
        x
    }
}

/// What a node is once variable `from` is called `to`.
pub open spec fn renamed_head(h: Head, from: u16, to: u16) -> Head {
    match h {
        Head::Var(x) => Head::Var(renamed_var(x, from, to)),
        Head::Assign(x) => Head::Assign(renamed_var(x, from, to)),
        Head::TupleGet(x, i) => Head::TupleGet(renamed_var(x, from, to), i),
        Head::TuplePut(x, i) => Head::TuplePut(renamed_var(x, from, to), i),
        Head::CallRef(x) => Head::CallRef(renamed_var(x, from, to)),
        Head::FnRefDnr(x) => Head::FnRefDnr(renamed_var(x, from, to)),
        Head::Iter(x) => Head::Iter(renamed_var(x, from, to)),
        Head::FnRef(d, x, t) => Head::FnRef(d, renamed_var(x, from, to), t),
        _ => h,
    }
}

/// The code once variable `from` is called `to`.
pub open spec fn renamed(n: Node, from: u16, to: u16) -> Node
    decreases n,
{
    Node { head: renamed_head(n.head, from, to), kids: renamed_all(n.kids, from, to) }
}

/// A list of nodes once variable `from` is called `to`.
pub open spec fn renamed_all(s: Seq<Node>, from: u16, to: u16) -> Seq<Node>
    decreases s,
{
    Seq::new(
        s.len(),
        |i: int|
            if 0 <= i < s.len() {
                renamed(s[i], from, to)
            } else {
                leaf(Head::Null)
            },
    )
}

fn rename(x: u16, from: u16, to: u16) -> (r: u16)
    ensures
        r == renamed_var(x, from, to),
{
    if x == from {
        to
    } else {
        x
    }
}

impl Value {
    /// The code with variable `from` called `to`.
    pub fn rename_var(&self, from: u16, to: u16) -> (v: Value)
        ensures
            v@ == renamed(self@, from, to),
        decreases self,
    {
        let kids: Vec<&Value> = self.children();
        let mut out: Vec<Value> = Vec::new();
        let mut i: usize = 0;
        while i < kids.len()
            invariant
                i <= kids.len(),
                out.len() == i,
                kids.len() == self@.kids.len(),
                forall|j: int| 0 <= j < kids.len() ==> (#[trigger] kids@[j])@ == self@.kids[j],
                forall|j: int| 0 <= j < kids.len() ==> decreases_to!(*self => *#[trigger] kids@[j]),
                forall|j: int|
                    0 <= j < i ==> (#[trigger] out@[j])@ == renamed(self@.kids[j], from, to),
            decreases kids.len() - i,
        {
            out.push(kids[i].rename_var(from, to));
            i = i + 1;
        }
        assert(views(out@) =~= renamed_all(self@.kids, from, to));
        self.rename_head(from, to, out)
    }

    fn rename_head(&self, from: u16, to: u16, kids: Vec<Value>) -> (v: Value)
        requires
            kids.len() == self@.kids.len(),
        ensures
            v@ == (Node { head: renamed_head(self@.head, from, to), kids: views(kids@) }),
    {
        proof {
            reveal_with_fuel(views, 2);
            reveal_with_fuel(Value::view, 2);
            if kids.len() == 0 {
                assert(views(kids@) =~= Seq::<Node>::empty());
            }
        }
        match self {
            Value::Var(x) => Value::Var(rename(*x, from, to)),
            Value::Assign(x, _) => Value::Assign(rename(*x, from, to), only(kids)),
            Value::TupleGet(x, i) => Value::TupleGet(rename(*x, from, to), *i),
            Value::TuplePut(x, i, _) => Value::TuplePut(rename(*x, from, to), *i, only(kids)),
            Value::CallRef(x, _) => Value::CallRef(rename(*x, from, to), kids),
            Value::FnRefDnr(x) => Value::FnRefDnr(rename(*x, from, to)),
            Value::Iter(x, _, _, _) => {
                let (p, q, r): (Box<Value>, Box<Value>, Box<Value>) = three(kids);
                Value::Iter(rename(*x, from, to), p, q, r)
            },
            Value::FnRef(d, x, t) => Value::FnRef(*d, rename(*x, from, to), Box::new(t.copy())),
            _ => self.rebuild(kids),
        }
    }
}

/// A variable that is called otherwise is not named any more, and no variable is named
/// then that was not before, the new name aside.
pub proof fn renaming_leaves_no_trace(n: Node, from: u16, to: u16, w: u16)
    requires
        w != to,
        w == from || !mentioned(n, w),
    ensures
        !mentioned(renamed(n, from, to), w),
    decreases n, 0int,
{
    renaming_leaves_none(n.kids, from, to, w);
}

proof fn renaming_leaves_none(s: Seq<Node>, from: u16, to: u16, w: u16)
    requires
        w != to,
        w == from || !any_in(s, names(w)),
    ensures
        !any_in(renamed_all(s, from, to), names(w)),
    decreases s, 1int,
{
    if s.len() > 0 {
        let all = renamed_all(s, from, to);
        assert(all.drop_last() =~= renamed_all(s.drop_last(), from, to));
        assert(all.last() == renamed(s.last(), from, to));
        renaming_leaves_none(s.drop_last(), from, to, w);
        renaming_leaves_no_trace(s.last(), from, to, w);
    }
}

} // verus!
