use vstd::prelude::*;
use crate::value::{deep, get, Val, Value};

verus! {

broadcast use vstd::std_specs::vec::group_vec_axioms;

/// The code of a string: each character shifted up by one, then a terminating zero,
/// so that no code is a proper prefix of another.
pub open spec fn str_code(s: Seq<char>) -> Seq<int> {
    s.map_values(|c: char| c as int + 1).push(0)
}

/// An ordering code of a value: values are compared by comparing their codes
/// lexicographically. Kinds come first (absent, null, booleans, numbers, strings,
/// records, arrays, objects), then contents.
pub open spec fn enc(v: Val) -> Seq<int>
    decreases v,
{
    match v {
        Val::Absent => seq![1],
        Val::Null => seq![2],
        Val::Bool(b) => seq![3, if b { 1int } else { 0int }],
        Val::Number(n) => seq![4, n],
        Val::Strand(s) => seq![5int] + str_code(s),
        Val::Thing(tb, id) => seq![6int] + str_code(tb) + seq![id],
        Val::Array(xs) => seq![7int] + enc_items(xs) + seq![0int],
        Val::Object(fs) => seq![8int] + enc_fields(fs) + seq![0int],
    }
}

pub open spec fn enc_items(xs: Seq<Val>) -> Seq<int>
    decreases xs,
{
    if xs.len() == 0 {
        Seq::empty()
    } else {
        enc_items(xs.drop_last()) + enc(xs.last())
    }
}

pub open spec fn enc_fields(fs: Seq<(Seq<char>, Val)>) -> Seq<int>
    decreases fs,
{
    if fs.len() == 0 {
        Seq::empty()
    } else {
        enc_fields(fs.drop_last()) + str_code(fs.last().0) + enc(fs.last().1)
    }
}

/// The code of the values of `row` at `paths`, in order.
pub open spec fn key_code(row: Val, paths: Seq<Seq<char>>) -> Seq<int>
    decreases paths.len(),
{
    if paths.len() == 0 {
        Seq::empty()
    } else {
        key_code(row, paths.drop_last()) + enc(get(row, paths.last()))
    }
}

pub open spec fn ints(s: Seq<i64>) -> Seq<int> {
    s.map_values(|x: i64| x as int)
}

/// Strict lexicographic order on codes.
pub open spec fn lex_lt(a: Seq<int>, b: Seq<int>) -> bool
    decreases a.len(),
{
    if a.len() == 0 {
        b.len() > 0
    } else if b.len() == 0 {
        false
    } else if a[0] != b[0] {
        a[0] < b[0]
    } else {
        lex_lt(a.drop_first(), b.drop_first())
    }
}

pub proof fn lemma_lex_skip(a: Seq<int>, b: Seq<int>, i: int)
    requires
        0 <= i <= a.len(),
        i <= b.len(),
        a.subrange(0, i) == b.subrange(0, i),
    ensures
        lex_lt(a, b) == lex_lt(a.subrange(i, a.len() as int), b.subrange(i, b.len() as int)),
    decreases i,
{
    if i > 0 {
        assert(a[0] == a.subrange(0, i)[0]);
        assert(b[0] == b.subrange(0, i)[0]);
        assert(a.drop_first().subrange(0, i - 1) =~= a.subrange(0, i).drop_first());
        assert(b.drop_first().subrange(0, i - 1) =~= b.subrange(0, i).drop_first());
        lemma_lex_skip(a.drop_first(), b.drop_first(), i - 1);
        assert(a.drop_first().subrange(i - 1, a.len() - 1) =~= a.subrange(i, a.len() as int));
        assert(b.drop_first().subrange(i - 1, b.len() - 1) =~= b.subrange(i, b.len() as int));
    } else {
        assert(a.subrange(0, a.len() as int) =~= a);
        assert(b.subrange(0, b.len() as int) =~= b);
    }
}

/// Two different codes are ordered one way or the other, never both.
pub proof fn lemma_lex_total(a: Seq<int>, b: Seq<int>)
    ensures
        a != b ==> (lex_lt(a, b) || lex_lt(b, a)),
        !(lex_lt(a, b) && lex_lt(b, a)),
        !lex_lt(a, a),
    decreases a.len(),
{
    if a.len() > 0 && b.len() > 0 && a[0] == b[0] {
        lemma_lex_total(a.drop_first(), b.drop_first());
        if a.drop_first() == b.drop_first() {
            assert(a =~= seq![a[0]] + a.drop_first());
            assert(b =~= seq![b[0]] + b.drop_first());
        }
    } else if a.len() > 0 && b.len() == 0 {
    } else if a.len() == 0 && b.len() == 0 {
        assert(a =~= b);
    }
    if a.len() > 0 {
        lemma_lex_total(a.drop_first(), a.drop_first());
    }
}

/// The order on codes is transitive.
pub proof fn lemma_lex_trans(a: Seq<int>, b: Seq<int>, c: Seq<int>)
    requires
        lex_lt(a, b),
        lex_lt(b, c),
    ensures
        lex_lt(a, c),
    decreases a.len(),
{
    if a.len() > 0 && b.len() > 0 && c.len() > 0 && a[0] == b[0] && b[0] == c[0] {
        lemma_lex_trans(a.drop_first(), b.drop_first(), c.drop_first());
    }
}

/// Appends the code of `s` to `out`.
fn encode_str(s: &String, out: &mut Vec<i64>)
    ensures
        ints(final(out)@) == ints(old(out)@) + str_code(s@),
{
    let t: &str = s.as_str();
    let n = t.unicode_len();
    let ghost start = ints(out@);
    let mut i: usize = 0;
    while i < n
        invariant
            i <= n,
            n == s@.len(),
            t@ == s@,
            ints(out@) == start + s@.subrange(0, i as int).map_values(|c: char| c as int + 1),
        decreases n - i,
    {
        let c = t.get_char(i);
        let ghost prev = out@;
        let code: i64 = c as u32 as i64 + 1;
        out.push(code);
        proof {
            assert(code as int == c as int + 1);
            assert(ints(out@) =~= ints(prev).push(code as int));
            assert(s@.subrange(0, i + 1).map_values(|c: char| c as int + 1) =~= s@.subrange(
                0,
                i as int,
            ).map_values(|c: char| c as int + 1).push(c as int + 1));
            assert(ints(out@) =~= start + s@.subrange(0, i + 1).map_values(|c: char| c as int + 1));
        }
        i = i + 1;
    }
    let ghost prev = out@;
    out.push(0);
    assert(ints(out@) =~= ints(prev).push(0));
    assert(s@.subrange(0, n as int) =~= s@);
    assert(ints(out@) =~= start + str_code(s@));
}

/// Appends the code of `v` to `out`.
pub fn encode_value(v: &Value, out: &mut Vec<i64>)
    ensures
        ints(final(out)@) == ints(old(out)@) + enc(deep(*v)),
    decreases v,
{
    let ghost start = ints(out@);
    match v {
        Value::Absent => {
            out.push(1);
            assert(ints(out@) =~= start + enc(deep(*v)));
        },
        Value::Null => {
            out.push(2);
            assert(ints(out@) =~= start + enc(deep(*v)));
        },
        Value::Bool(b) => {
            out.push(3);
            out.push(if *b { 1 } else { 0 });
            assert(ints(out@) =~= start + enc(deep(*v)));
        },
        Value::Number(n) => {
            out.push(4);
            out.push(*n);
            assert(ints(out@) =~= start + enc(deep(*v)));
        },
        Value::Strand(s) => {
            out.push(5);
            assert(ints(out@) =~= start + seq![5int]);
            encode_str(s, out);
            assert(ints(out@) =~= start + enc(deep(*v)));
        },
        Value::Thing(t) => {
            out.push(6);
            assert(ints(out@) =~= start + seq![6int]);
            encode_str(&t.tb, out);
            let ghost mid = out@;
            out.push(t.id);
            assert(ints(out@) =~= ints(mid).push(t.id as int));
            assert(ints(out@) =~= start + enc(deep(*v)));
        },
        Value::Array(vs) => {
            out.push(7);
            let ghost xs = deep(*v)->Array_0;
            assert(ints(out@) =~= start + seq![7int]);
            let mut i: usize = 0;
            while i < vs.len()
                invariant
                    i <= vs@.len(),
                    *v == Value::Array(*vs),
                    xs == deep(*v)->Array_0,
                    xs.len() == vs@.len(),
                    ints(out@) == start + seq![7int] + enc_items(xs.subrange(0, i as int)),
                decreases vs@.len() - i,
            {
                proof {
                    assert(decreases_to!(*vs => vs[i as int]));
                    assert(decreases_to!(*v => v->Array_0));
                    assert(xs.subrange(0, i + 1).drop_last() =~= xs.subrange(0, i as int));
                    assert(xs[i as int] == deep(vs@[i as int]));
                }
                encode_value(&vs[i], out);
                i = i + 1;
                assert(ints(out@) =~= start + seq![7int] + enc_items(xs.subrange(0, i as int)));
            }
            let ghost mid = out@;
            out.push(0);
            assert(ints(out@) =~= ints(mid).push(0));
            assert(xs.subrange(0, i as int) =~= xs);
            assert(ints(out@) =~= start + enc(deep(*v)));
        },
        Value::Object(fs) => {
            out.push(8);
            let ghost xs = deep(*v)->Object_0;
            assert(ints(out@) =~= start + seq![8int]);
            let mut i: usize = 0;
            while i < fs.len()
                invariant
                    i <= fs@.len(),
                    *v == Value::Object(*fs),
                    xs == deep(*v)->Object_0,
                    xs.len() == fs@.len(),
                    ints(out@) == start + seq![8int] + enc_fields(xs.subrange(0, i as int)),
                decreases fs@.len() - i,
            {
                proof {
                    assert(decreases_to!(*fs => fs[i as int]));
                    assert(decreases_to!(fs[i as int] => fs[i as int].1));
                    assert(decreases_to!(*v => v->Object_0));
                    assert(xs.subrange(0, i + 1).drop_last() =~= xs.subrange(0, i as int));
                    assert(xs[i as int] == (fs@[i as int].0@, deep(fs@[i as int].1)));
                }
                encode_str(&fs[i].0, out);
                encode_value(&fs[i].1, out);
                i = i + 1;
                assert(ints(out@) =~= start + seq![8int] + enc_fields(xs.subrange(0, i as int)));
            }
            let ghost mid = out@;
            out.push(0);
            assert(ints(out@) =~= ints(mid).push(0));
            assert(xs.subrange(0, i as int) =~= xs);
            assert(ints(out@) =~= start + enc(deep(*v)));
        },
    }
}

/// The code of the values of `row` at `paths`.
pub fn encode_key(row: &Value, paths: &Vec<String>) -> (r: Vec<i64>)
    ensures
        ints(r@) == key_code(deep(*row), paths@.map_values(|p: String| p@)),
{
    let ghost ps = paths@.map_values(|p: String| p@);
    let mut out: Vec<i64> = Vec::new();
    let mut i: usize = 0;
    assert(ints(out@) =~= Seq::empty());
    while i < paths.len()
        invariant
            i <= paths@.len(),
            ps == paths@.map_values(|p: String| p@),
            ints(out@) == key_code(deep(*row), ps.subrange(0, i as int)),
        decreases paths@.len() - i,
    {
        let x = row.pick(&paths[i]);
        encode_value(&x, &mut out);
        proof {
            assert(ps.subrange(0, i + 1).drop_last() =~= ps.subrange(0, i as int));
        }
        i = i + 1;
    }
    assert(ps.subrange(0, i as int) =~= ps);
    out
}

/// Whether code `a` comes strictly before code `b`.
pub fn code_less(a: &Vec<i64>, b: &Vec<i64>) -> (r: bool)
    ensures
        r == lex_lt(ints(a@), ints(b@)),
{
    let ghost x = ints(a@);
    let ghost y = ints(b@);
    let mut i: usize = 0;
    while i < a.len() && i < b.len() && a[i] == b[i]
        invariant
            i <= a@.len(),
            i <= b@.len(),
            x == ints(a@),
            y == ints(b@),
            x.subrange(0, i as int) == y.subrange(0, i as int),
        decreases a@.len() - i,
    {
        assert(x.subrange(0, i + 1) =~= x.subrange(0, i as int).push(x[i as int]));
        assert(y.subrange(0, i + 1) =~= y.subrange(0, i as int).push(y[i as int]));
        i = i + 1;
    }
    proof {
        lemma_lex_skip(x, y, i as int);
    }
    let ghost xs = x.subrange(i as int, x.len() as int);
    let ghost ys = y.subrange(i as int, y.len() as int);
    if i == a.len() {
        i < b.len()
    } else if i == b.len() {
        false
    } else {
        assert(xs[0] == x[i as int] && ys[0] == y[i as int]);
        a[i] < b[i]
    }
}

/// Whether two codes are equal.
pub fn code_eq(a: &Vec<i64>, b: &Vec<i64>) -> (r: bool)
    ensures
        r == (ints(a@) == ints(b@)),
{
    if a.len() != b.len() {
        assert(ints(a@).len() != ints(b@).len());
        return false;
    }
    let mut i: usize = 0;
    while i < a.len()
        invariant
            i <= a@.len(),
            a@.len() == b@.len(),
            forall|j: int| 0 <= j < i ==> a@[j] == b@[j],
        decreases a@.len() - i,
    {
        if a[i] != b[i] {
            assert(ints(a@)[i as int] != ints(b@)[i as int]);
            return false;
        }
        i = i + 1;
    }
    assert(ints(a@) =~= ints(b@));
    true
}

} // verus!
