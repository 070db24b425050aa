use vstd::prelude::*;

verus! {

broadcast use vstd::std_specs::vec::group_vec_axioms;

/// A record identity: the table it lives in and its numeric key.
#[derive(Debug, PartialEq)]
pub struct Thing {
    pub tb: String,
    pub id: i64,
}

/// A document value as the execution core sees it.
#[derive(Debug, PartialEq)]
pub enum Value {
    Absent,
    Null,
    Bool(bool),
    Number(i64),
    Strand(String),
    Thing(Thing),
    Array(Vec<Value>),
    Object(Vec<(String, Value)>),
}

/// The mathematical model of a `Value`.
pub enum Val {
    Absent,
    Null,
    Bool(bool),
    Number(int),
    Strand(Seq<char>),
    Thing(Seq<char>, int),
    Array(Seq<Val>),
    Object(Seq<(Seq<char>, Val)>),
}

pub open spec fn deep(v: Value) -> Val
    decreases v,
{
    match v {
        Value::Absent => Val::Absent,
        Value::Null => Val::Null,
        Value::Bool(b) => Val::Bool(b),
        Value::Number(n) => Val::Number(n as int),
        Value::Strand(s) => Val::Strand(s@),
        Value::Thing(t) => Val::Thing(t.tb@, t.id as int),
        Value::Array(vs) => Val::Array(
            Seq::new(vs@.len(), |i: int| if 0 <= i < vs@.len() { deep(vs@[i]) } else { Val::Absent }),
        ),
        Value::Object(fs) => Val::Object(
            Seq::new(
                fs@.len(),
                |i: int|
                    if 0 <= i < fs@.len() {
                        (fs@[i].0@, deep(fs@[i].1))
                    } else {
                        (Seq::empty(), Val::Absent)
                    },
            ),
        ),
    }
}

/// The models of a sequence of values.
pub open spec fn deeps(s: Seq<Value>) -> Seq<Val> {
    s.map_values(|v: Value| deep(v))
}

/// Position of the first entry named `f`, or the number of entries when none is.
pub open spec fn key_index(fs: Seq<(Seq<char>, Val)>, f: Seq<char>) -> int
    decreases fs.len(),
{
    if fs.len() == 0 {
        0
    } else if fs[0].0 == f {
        0
    } else {
        1 + key_index(fs.drop_first(), f)
    }
}

/// The value of field `f` of `v`: `Absent` where `v` is no object or has no such field.
pub open spec fn get(v: Val, f: Seq<char>) -> Val {
    match v {
        Val::Object(fs) => {
            let i = key_index(fs, f);
            if i < fs.len() {
                fs[i].1
            } else {
                Val::Absent
            }
        },
        _ => Val::Absent,
    }
}

/// `v` with field `f` set to `x`: an existing field keeps its place, a new one is
/// appended, and a value that is no object becomes an object of that one field.
pub open spec fn put(v: Val, f: Seq<char>, x: Val) -> Val {
    match v {
        Val::Object(fs) => {
            let i = key_index(fs, f);
            if i < fs.len() {
                Val::Object(fs.update(i, (f, x)))
            } else {
                Val::Object(fs.push((f, x)))
            }
        },
        _ => Val::Object(seq![(f, x)]),
    }
}

proof fn lemma_key_index(fs: Seq<(Seq<char>, Val)>, f: Seq<char>, i: int)
    requires
        0 <= i <= fs.len(),
        forall|j: int| 0 <= j < i ==> fs[j].0 != f,
        i == fs.len() || fs[i].0 == f,
    ensures
        key_index(fs, f) == i,
    decreases fs.len(),
{
    if fs.len() > 0 && i > 0 {
        lemma_key_index(fs.drop_first(), f, i - 1);
    }
}

impl Value {
    /// A deep copy.
    pub fn copy(&self) -> (r: Value)
        ensures
            deep(r) == deep(*self),
        decreases self,
    {
        match self {
            Value::Absent => Value::Absent,
            Value::Null => Value::Null,
            Value::Bool(b) => Value::Bool(*b),
            Value::Number(n) => Value::Number(*n),
            Value::Strand(s) => Value::Strand(s.clone()),
            Value::Thing(t) => Value::Thing(Thing { tb: t.tb.clone(), id: t.id }),
            Value::Array(vs) => {
                let mut out: Vec<Value> = Vec::new();
                let mut i: usize = 0;
                while i < vs.len()
                    invariant
                        i <= vs@.len(),
                        out@.len() == i,
                        *self == Value::Array(*vs),
                        forall|j: int| 0 <= j < i ==> deep(#[trigger] out@[j]) == deep(vs@[j]),
                    decreases vs@.len() - i,
                {
                    proof {
                        assert(decreases_to!(*vs => vs[i as int]));
                        assert(decreases_to!(*self => self->Array_0));
                    }
                    out.push(vs[i].copy());
                    i = i + 1;
                }
                let r = Value::Array(out);
                assert(deep(r)->Array_0 =~= deep(*self)->Array_0);
                r
            },
            Value::Object(fs) => {
                let mut out: Vec<(String, Value)> = Vec::new();
                let mut i: usize = 0;
                while i < fs.len()
                    invariant
                        i <= fs@.len(),
                        out@.len() == i,
                        *self == Value::Object(*fs),
                        forall|j: int|
                            0 <= j < i ==> (#[trigger] out@[j]).0@ == fs@[j].0@ && deep(out@[j].1)
                                == deep(fs@[j].1),
                    decreases fs@.len() - i,
                {
                    proof {
                        assert(decreases_to!(*fs => fs[i as int]));
                        assert(decreases_to!(fs[i as int] => fs[i as int].1));
                        assert(decreases_to!(*self => self->Object_0));
                    }
                    let x = fs[i].1.copy();
                    out.push((fs[i].0.clone(), x));
                    i = i + 1;
                }
                let r = Value::Object(out);
                assert(deep(r)->Object_0 =~= deep(*self)->Object_0);
                r
            },
        }
    }

    /// The value of field `f`, copied; `Absent` where there is none.
    pub fn pick(&self, f: &String) -> (r: Value)
        ensures
            deep(r) == get(deep(*self), f@),
    {
        match self {
            Value::Object(fs) => {
                let ghost m = deep(*self)->Object_0;
                let mut i: usize = 0;
                while i < fs.len()
                    invariant
                        i <= fs@.len(),
                        m.len() == fs@.len(),
                        m == deep(*self)->Object_0,
                        *self == Value::Object(*fs),
                        forall|j: int| 0 <= j < i ==> m[j].0 != f@,
                    decreases fs@.len() - i,
                {
                    if fs[i].0 == *f {
                        proof {
                            lemma_key_index(m, f@, i as int);
                        }
                        return fs[i].1.copy();
                    }
                    i = i + 1;
                }
                proof {
                    lemma_key_index(m, f@, i as int);
                }
                Value::Absent
            },
            _ => Value::Absent,
        }
    }

    /// Sets field `f` to `x`.
    pub fn set(&mut self, f: &String, x: Value)
        ensures
            deep(*final(self)) == put(deep(*old(self)), f@, deep(x)),
    {
        let mut cur = Value::Null;
        std::mem::swap(self, &mut cur);
        match cur {
            Value::Object(mut fs) => {
                let ghost m = deep(Value::Object(fs))->Object_0;
                let mut i: usize = 0;
                while i < fs.len()
                    invariant
                        i <= fs@.len(),
                        m.len() == fs@.len(),
                        m == deep(Value::Object(fs))->Object_0,
                        forall|j: int| 0 <= j < i ==> m[j].0 != f@,
                    ensures
                        i <= fs@.len(),
                        forall|j: int| 0 <= j < i ==> m[j].0 != f@,
                        i == fs@.len() || m[i as int].0 == f@,
                    decreases fs@.len() - i,
                {
                    if fs[i].0 == *f {
                        break;
                    }
                    i = i + 1;
                }
                proof {
                    lemma_key_index(m, f@, i as int);
                }
                if i < fs.len() {
                    fs.set(i, (f.clone(), x));
                    assert(deep(Value::Object(fs))->Object_0 =~= m.update(i as int, (f@, deep(x))));
                } else {
                    fs.push((f.clone(), x));
                    assert(deep(Value::Object(fs))->Object_0 =~= m.push((f@, deep(x))));
                }
                *self = Value::Object(fs);
            },
            _ => {
                let mut fs: Vec<(String, Value)> = Vec::new();
                fs.push((f.clone(), x));
                *self = Value::Object(fs);
                assert(deep(*self)->Object_0 =~= seq![(f@, deep(x))]);
            },
        }
    }
}

} // verus!
