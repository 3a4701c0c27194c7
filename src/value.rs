use vstd::prelude::*;

verus! {

/// A value held by a slot of the evaluator.
///
/// A float is held as its IEEE-754 bit pattern: the evaluator never computes
/// on it, it only stores, copies and hands it back.
#[derive(Debug, PartialEq, Eq)]
pub enum Value {
    Int(i64),
    Float(u64),
    Bool(bool),
    Char(char),
    Str(String),
    Tuple(Vec<Value>),
    Array(Vec<Value>),
}

/// The mathematical content of a `Value`.
pub enum ValueModel {
    Int(i64),
    Float(u64),
    Bool(bool),
    Char(char),
    Str(Seq<char>),
    Tuple(Seq<ValueModel>),
    Array(Seq<ValueModel>),
}

/// Whether every element of `vs` has copy semantics.
pub open spec fn all_copy(vs: Seq<ValueModel>) -> bool
    decreases vs,
{
    if vs.len() == 0 {
        true
    } else {
        vs[0].is_copy() && all_copy(vs.drop_first())
    }
}

impl ValueModel {
    /// Scalars are copied on use; a string is moved, and so is a tuple or an
    /// array that holds anything that is moved.
    pub open spec fn is_copy(self) -> bool
        decreases self,
    {
        match self {
            ValueModel::Str(_) => false,
            ValueModel::Tuple(vs) => all_copy(vs),
            ValueModel::Array(vs) => all_copy(vs),
            _ => true,
        }
    }
}

pub open spec fn view_of(v: Value) -> ValueModel
    decreases v,
{
    match v {
        Value::Int(n) => ValueModel::Int(n),
        Value::Float(b) => ValueModel::Float(b),
        Value::Bool(b) => ValueModel::Bool(b),
        Value::Char(c) => ValueModel::Char(c),
        Value::Str(s) => ValueModel::Str(s@),
        Value::Tuple(vs) => ValueModel::Tuple(views_of(vs@)),
        Value::Array(vs) => ValueModel::Array(views_of(vs@)),
    }
}

pub open spec fn views_of(vs: Seq<Value>) -> Seq<ValueModel>
    decreases vs,
{
    if vs.len() == 0 {
        Seq::empty()
    } else {
        seq![view_of(vs[0])] + views_of(vs.drop_first())
    }
}

impl View for Value {
    type V = ValueModel;

    open spec fn view(&self) -> ValueModel {
        view_of(*self)
    }
}

proof fn lemma_views_of(vs: Seq<Value>)
    ensures
        views_of(vs).len() == vs.len(),
        forall|i: int| 0 <= i < vs.len() ==> #[trigger] views_of(vs)[i] == view_of(vs[i]),
    decreases vs.len(),
{
    if vs.len() > 0 {
        lemma_views_of(vs.drop_first());
        assert forall|i: int| 0 <= i < vs.len() implies #[trigger] views_of(vs)[i] == view_of(vs[i]) by {
            if i > 0 {
                assert(vs.drop_first()[i - 1] == vs[i]);
            }
        }
    }
}

proof fn lemma_all_copy(vs: Seq<ValueModel>)
    ensures
        all_copy(vs) <==> forall|i: int| 0 <= i < vs.len() ==> #[trigger] vs[i].is_copy(),
    decreases vs.len(),
{
    if vs.len() > 0 {
        let t = vs.drop_first();
        lemma_all_copy(t);
        assert(all_copy(vs) == (vs[0].is_copy() && all_copy(t)));
        if all_copy(vs) {
            assert forall|i: int| 0 <= i < vs.len() implies #[trigger] vs[i].is_copy() by {
                if i > 0 {
                    assert(vs[i] == t[i - 1]);
                }
            }
        }
        if forall|i: int| 0 <= i < vs.len() ==> #[trigger] vs[i].is_copy() {
            assert forall|j: int| 0 <= j < t.len() implies #[trigger] t[j].is_copy() by {
                assert(t[j] == vs[j + 1]);
            }
        }
    }
}

impl Value {
    /// Whether the value is copied, rather than moved, when it is used.
    pub fn is_copy(&self) -> (r: bool)
        ensures
            r == self@.is_copy(),
        decreases self,
    {
        match self {
            Value::Str(_) => false,
            Value::Tuple(vs) => all_copy_exec(vs),
            Value::Array(vs) => all_copy_exec(vs),
            _ => true,
        }
    }

    /// A deep copy of the value.
    pub fn duplicate(&self) -> (r: Value)
        ensures
            r@ == self@,
        decreases self,
    {
        match self {
            Value::Int(n) => Value::Int(*n),
            Value::Float(b) => Value::Float(*b),
            Value::Bool(b) => Value::Bool(*b),
            Value::Char(c) => Value::Char(*c),
            Value::Str(s) => Value::Str(s.clone()),
            Value::Tuple(vs) => Value::Tuple(duplicate_all(vs)),
            Value::Array(vs) => Value::Array(duplicate_all(vs)),
        }
    }
}

fn all_copy_exec(vs: &Vec<Value>) -> (r: bool)
    ensures
        r == all_copy(views_of(vs@)),
    decreases vs,
{
    proof {
        lemma_views_of(vs@);
        lemma_all_copy(views_of(vs@));
    }
    let mut i: usize = 0;
    while i < vs.len()
        invariant
            i <= vs.len(),
            views_of(vs@).len() == vs@.len(),
            forall|j: int| 0 <= j < vs@.len() ==> #[trigger] views_of(vs@)[j] == view_of(vs@[j]),
            all_copy(views_of(vs@)) <==> forall|j: int|
                0 <= j < vs@.len() ==> #[trigger] views_of(vs@)[j].is_copy(),
            forall|j: int| 0 <= j < i ==> #[trigger] views_of(vs@)[j].is_copy(),
        decreases vs.len() - i,
    {
        assert(decreases_to!(vs => vs@[i as int]));
        if !vs[i].is_copy() {
            assert(!views_of(vs@)[i as int].is_copy());
            return false;
        }
        i = i + 1;
    }
    true
}

fn duplicate_all(vs: &Vec<Value>) -> (r: Vec<Value>)
    ensures
        views_of(r@) == views_of(vs@),
    decreases vs,
{
    let mut out: Vec<Value> = Vec::new();
    let mut i: usize = 0;
    while i < vs.len()
        invariant
            i <= vs.len(),
            out@.len() == i,
            forall|j: int| 0 <= j < i ==> #[trigger] view_of(out@[j]) == view_of(vs@[j]),
        decreases vs.len() - i,
    {
        assert(decreases_to!(vs => vs@[i as int]));
        let d = vs[i].duplicate();
        out.push(d);
        i = i + 1;
    }
    proof {
        lemma_views_of(vs@);
        lemma_views_of(out@);
        assert(views_of(out@) =~= views_of(vs@));
    }
    out
}

} // verus!
