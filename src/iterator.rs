use vstd::prelude::*;
use crate::collate::{code_eq, code_less, encode_key, encode_value, enc, ints, key_code, lex_lt, lemma_lex_total};
use crate::value::{deep, deeps, get, put, Thing, Val, Value};

verus! {

broadcast use vstd::std_specs::vec::group_vec_axioms;

/// The deepest nesting of iterations allowed.
pub const MAX_COMPUTATION_DEPTH: u32 = 120;

/// How much one iteration adds to the nesting depth.
pub const ITERATE_DEPTH: u32 = 4;

/// Errors of the execution core.
#[derive(Debug, PartialEq)]
pub enum Error {
    /// A candidate that does not belong in the result set.
    Ignore,
    /// A failure reported while processing a document.
    Thrown(String),
    /// The LIMIT clause did not resolve to a non-negative number.
    InvalidLimit(i64),
    /// The START clause did not resolve to a non-negative number.
    InvalidStart(i64),
    /// Iteration nested deeper than allowed.
    ComputationDepthExceeded,
}

/// A key range of a table.
#[derive(Debug)]
pub struct Range {
    pub tb: String,
    pub beg: i64,
    pub end: i64,
}

/// Graph edges leaving (or entering) a record.
#[derive(Debug)]
pub struct Edges {
    pub from: Thing,
    pub outgoing: bool,
    pub what: Vec<String>,
}

/// A query plan produced by the index planner.
#[derive(Debug)]
pub struct Plan {
    pub index: String,
    pub explanation: Value,
}

/// Where candidate records come from.
#[derive(Debug)]
pub enum Iterable {
    Value(Value),
    Table(String),
    Thing(Thing),
    Range(Range),
    Edges(Edges),
    Mergeable(Thing, Value),
    Relatable(Thing, Thing, Thing),
    Index(String, Plan),
}

/// A candidate handed to the document pipeline.
#[derive(Debug)]
pub enum Operable {
    Value(Value),
    Mergeable(Value, Value),
    Relatable(Thing, Value, Thing),
}

/// Statement-specific context of a candidate.
#[derive(Debug)]
pub enum Workable {
    Normal,
    Insert(Value),
    Relate(Thing, Thing),
}

impl Operable {
    /// The document to process and what the statement needs to know beside it.
    pub fn into_work(self) -> (r: (Value, Workable))
        ensures
            match self {
                Operable::Value(v) => r == (v, Workable::Normal),
                Operable::Mergeable(v, o) => r == (v, Workable::Insert(o)),
                Operable::Relatable(f, v, w) => r == (v, Workable::Relate(f, w)),
            },
    {
        match self {
            Operable::Value(v) => (v, Workable::Normal),
            Operable::Mergeable(v, o) => (v, Workable::Insert(o)),
            Operable::Relatable(f, v, w) => (v, Workable::Relate(f, w)),
        }
    }
}

/// A projected expression.
#[derive(Debug)]
pub enum Expr {
    /// The value at a field of the document.
    Idiom(String),
    /// The number of rows: an aggregate.
    Count,
    /// The values at a field of every row, in order: an aggregate.
    Collect(String),
}

/// A projected field.
#[derive(Debug)]
pub enum Field {
    /// `*`: all fields.
    All,
    Single { expr: Expr, alias: Option<String> },
}

/// One ORDER clause.
#[derive(Debug)]
pub struct Order {
    pub field: String,
    pub random: bool,
    /// `true` for ascending order.
    pub direction: bool,
}

/// The clauses of a statement that the execution core reads.
#[derive(Debug)]
pub struct Statement {
    pub expr: Option<Vec<Field>>,
    pub split: Option<Vec<String>>,
    pub group: Option<Vec<String>>,
    pub order: Option<Vec<Order>>,
    pub limit: Option<i64>,
    pub start: Option<i64>,
    pub fetch: Option<Vec<String>>,
    pub explain: bool,
    pub parallel: bool,
}

/// The state of one query execution.
pub struct Iterator {
    /// Set once no further candidate should be processed.
    pub cancelled: bool,
    pub limit: Option<usize>,
    pub start: Option<usize>,
    /// The first processing error.
    pub error: Option<Error>,
    pub results: Vec<Value>,
    pub entries: Vec<Iterable>,
}

/// Whether the rows gathered so far are all that the statement can return, so that
/// iteration may stop: only without GROUP and ORDER, which need every row.
pub open spec fn enough(stm: Statement, limit: Option<usize>, start: Option<usize>, n: int) -> bool {
    &&& stm.group is None
    &&& stm.order is None
    &&& limit is Some
    &&& n == limit->0 + match start {
        Some(s) => s as int,
        None => 0,
    }
}

/// The rows of one row split on field `f`.
pub open spec fn split_one(row: Val, f: Seq<char>) -> Seq<Val> {
    match get(row, f) {
        Val::Array(xs) => Seq::new(xs.len(), |i: int| put(row, f, xs[i])),
        x => seq![put(row, f, x)],
    }
}

/// The rows split on field `f`, in order.
pub open spec fn split_rows(rows: Seq<Val>, f: Seq<char>) -> Seq<Val>
    decreases rows.len(),
{
    if rows.len() == 0 {
        Seq::empty()
    } else {
        split_rows(rows.drop_last(), f) + split_one(rows.last(), f)
    }
}

/// The rows split on each of `fs` in turn.
pub open spec fn split_all(rows: Seq<Val>, fs: Seq<Seq<char>>) -> Seq<Val>
    decreases fs.len(),
{
    if fs.len() == 0 {
        rows
    } else {
        split_rows(split_all(rows, fs.drop_last()), fs.last())
    }
}

pub open spec fn names(fs: Seq<String>) -> Seq<Seq<char>> {
    fs.map_values(|f: String| f@)
}

pub open spec fn skip_rows(rows: Seq<Val>, start: Option<usize>) -> Seq<Val> {
    match start {
        Some(s) => if s < rows.len() { rows.subrange(s as int, rows.len() as int) } else { Seq::empty() },
        None => rows,
    }
}

pub open spec fn take_rows(rows: Seq<Val>, limit: Option<usize>) -> Seq<Val> {
    match limit {
        Some(l) => if l < rows.len() { rows.subrange(0, l as int) } else { rows },
        None => rows,
    }
}

impl Iterator {
    /// An empty iterator.
    pub fn new() -> (r: Self)
        ensures
            !r.cancelled,
            r.limit is None,
            r.start is None,
            r.error is None,
            r.results@.len() == 0,
            r.entries@.len() == 0,
    {
        Iterator {
            cancelled: false,
            limit: None,
            start: None,
            error: None,
            results: Vec::new(),
            entries: Vec::new(),
        }
    }

    /// Queues a data source.
    pub fn ingest(&mut self, val: Iterable)
        ensures
            final(self).entries@ == old(self).entries@.push(val),
            final(self).results@ == old(self).results@,
            final(self).cancelled == old(self).cancelled,
            final(self).limit == old(self).limit,
            final(self).start == old(self).start,
            final(self).error == old(self).error,
    {
        self.entries.push(val)
    }

    /// Resolves the LIMIT clause.
    pub fn setup_limit(&mut self, stm: &Statement) -> (r: Result<(), Error>)
        ensures
            match stm.limit {
                Some(v) => if v >= 0 {
                    r is Ok && final(self).limit == Some(v as usize)
                } else {
                    r == Err::<(), Error>(Error::InvalidLimit(v)) && final(self).limit == old(self).limit
                },
                None => r is Ok && final(self).limit == old(self).limit,
            },
            final(self).start == old(self).start,
            final(self).results == old(self).results,
            final(self).entries == old(self).entries,
            final(self).error == old(self).error,
            final(self).cancelled == old(self).cancelled,
    {
        if let Some(v) = stm.limit {
            if v < 0 {
                return Err(Error::InvalidLimit(v));
            }
            self.limit = Some(v as usize);
        }
        Ok(())
    }

    /// Resolves the START clause.
    pub fn setup_start(&mut self, stm: &Statement) -> (r: Result<(), Error>)
        ensures
            match stm.start {
                Some(v) => if v >= 0 {
                    r is Ok && final(self).start == Some(v as usize)
                } else {
                    r == Err::<(), Error>(Error::InvalidStart(v)) && final(self).start == old(self).start
                },
                None => r is Ok && final(self).start == old(self).start,
            },
            final(self).limit == old(self).limit,
            final(self).results == old(self).results,
            final(self).entries == old(self).entries,
            final(self).error == old(self).error,
            final(self).cancelled == old(self).cancelled,
    {
        if let Some(v) = stm.start {
            if v < 0 {
                return Err(Error::InvalidStart(v));
            }
            self.start = Some(v as usize);
        }
        Ok(())
    }

    /// Accepts the outcome of processing one candidate: an ignored candidate is
    /// dropped, the first error is kept and stops iteration, a value is appended,
    /// unless an error is kept, and stops iteration once the rows needed are there.
    pub fn result(&mut self, res: Result<Value, Error>, stm: &Statement)
        ensures
            final(self).limit == old(self).limit,
            final(self).start == old(self).start,
            final(self).entries == old(self).entries,
            acc(*final(self)) == accept(acc(*old(self)), res, *stm, old(self).limit, old(self).start),
    {
        match res {
            Err(Error::Ignore) => {},
            Err(e) => {
                if self.error.is_none() {
                    self.error = Some(e);
                }
                self.cancelled = true;
            },
            Ok(v) => {
                if self.error.is_some() {
                    return;
                }
                self.results.push(v);
                if stm.group.is_none() && stm.order.is_none() {
                    if let Some(l) = self.limit {
                        let n = self.results.len();
                        if let Some(s) = self.start {
                            if n >= s && n - s == l {
                                self.cancelled = true;
                            }
                        } else if n == l {
                            self.cancelled = true;
                        }
                    }
                }
            },
        }
    }

    /// Accepts the outcome of one candidate unless iteration has stopped.
    pub fn process(&mut self, stm: &Statement, res: Result<Value, Error>)
        ensures
            final(self).limit == old(self).limit,
            final(self).start == old(self).start,
            final(self).entries == old(self).entries,
            acc(*final(self)) == step(acc(*old(self)), res, *stm, old(self).limit, old(self).start),
    {
        if self.cancelled {
            return;
        }
        self.result(res, stm);
    }

    /// Drops the first `start` rows.
    pub fn output_start(&mut self)
        ensures
            deeps(final(self).results@) == skip_rows(deeps(old(self).results@), old(self).start),
            final(self).limit == old(self).limit,
            final(self).start == old(self).start,
            final(self).entries == old(self).entries,
            final(self).error == old(self).error,
            final(self).cancelled == old(self).cancelled,
    {
        if let Some(s) = self.start {
            let mut out: Vec<Value> = Vec::new();
            let mut i: usize = s;
            let ghost rows = deeps(self.results@);
            while i < self.results.len()
                invariant
                    s <= i || s >= self.results@.len(),
                    rows == deeps(self.results@),
                    i >= s,
                    i <= self.results@.len() || s >= self.results@.len(),
                    s < self.results@.len() ==> deeps(out@) == rows.subrange(s as int, i as int),
                    s >= self.results@.len() ==> out@.len() == 0,
                decreases self.results@.len() - i,
            {
                let x = self.results[i].copy();
                out.push(x);
                assert(deeps(out@) =~= rows.subrange(s as int, i + 1));
                i = i + 1;
            }
            if s >= self.results.len() {
                assert(deeps(out@) =~= Seq::<Val>::empty());
            } else {
                assert(deeps(out@) =~= rows.subrange(s as int, rows.len() as int));
            }
            self.results = out;
        }
    }

    /// Keeps at most `limit` rows.
    pub fn output_limit(&mut self)
        ensures
            deeps(final(self).results@) == take_rows(deeps(old(self).results@), old(self).limit),
            final(self).limit == old(self).limit,
            final(self).start == old(self).start,
            final(self).entries == old(self).entries,
            final(self).error == old(self).error,
            final(self).cancelled == old(self).cancelled,
    {
        if let Some(l) = self.limit {
            if l < self.results.len() {
                let ghost before = self.results@;
                self.results.truncate(l);
                assert(deeps(self.results@) =~= deeps(before).subrange(0, l as int));
            }
        }
    }
}

/// Appends the rows of `row` split on field `f` to `out`.
fn split_row(row: &Value, f: &String, out: &mut Vec<Value>)
    ensures
        deeps(final(out)@) == deeps(old(out)@) + split_one(deep(*row), f@),
{
    let ghost start = deeps(out@);
    let val = row.pick(f);
    match val {
        Value::Array(vs) => {
            let ghost xs = deep(Value::Array(vs))->Array_0;
            let mut j: usize = 0;
            while j < vs.len()
                invariant
                    j <= vs@.len(),
                    xs == deep(Value::Array(vs))->Array_0,
                    get(deep(*row), f@) == Val::Array(xs),
                    deeps(out@) == start + Seq::new(j as nat, |i: int| put(deep(*row), f@, xs[i])),
                decreases vs@.len() - j,
            {
                let mut obj = row.copy();
                let x = vs[j].copy();
                obj.set(f, x);
                let ghost prev = out@;
                let ghost d = deep(obj);
                assert(xs[j as int] == deep(vs@[j as int]));
                out.push(obj);
                assert(deeps(out@) =~= deeps(prev).push(d));
                j = j + 1;
                assert(deeps(out@) =~= start + Seq::new(j as nat, |i: int| put(deep(*row), f@, xs[i])));
            }
            assert(deeps(out@) =~= start + split_one(deep(*row), f@));
        },
        _ => {
            let mut obj = row.copy();
            obj.set(f, val);
            let ghost prev = out@;
            let ghost d = deep(obj);
            out.push(obj);
            assert(deeps(out@) =~= deeps(prev).push(d));
            assert(deeps(out@) =~= start + split_one(deep(*row), f@));
        },
    }
}

/// The rows split on field `f`.
fn split_field(rows: &Vec<Value>, f: &String) -> (r: Vec<Value>)
    ensures
        deeps(r@) == split_rows(deeps(rows@), f@),
{
    let ghost all = deeps(rows@);
    let mut out: Vec<Value> = Vec::new();
    let mut i: usize = 0;
    assert(deeps(out@) =~= Seq::<Val>::empty());
    while i < rows.len()
        invariant
            i <= rows@.len(),
            all == deeps(rows@),
            deeps(out@) == split_rows(all.subrange(0, i as int), f@),
        decreases rows@.len() - i,
    {
        split_row(&rows[i], f, &mut out);
        assert(all.subrange(0, i + 1).drop_last() =~= all.subrange(0, i as int));
        i = i + 1;
    }
    assert(all.subrange(0, i as int) =~= all);
    out
}

impl Iterator {
    /// Splits every row on each SPLIT field in turn.
    pub fn output_split(&mut self, stm: &Statement)
        ensures
            deeps(final(self).results@) == match stm.split {
                Some(fs) => split_all(deeps(old(self).results@), names(fs@)),
                None => deeps(old(self).results@),
            },
            final(self).limit == old(self).limit,
            final(self).start == old(self).start,
            final(self).entries == old(self).entries,
            final(self).error == old(self).error,
            final(self).cancelled == old(self).cancelled,
    {
        if let Some(splits) = &stm.split {
            let ghost rows = deeps(self.results@);
            let ghost ns = names(splits@);
            let mut k: usize = 0;
            while k < splits.len()
                invariant
                    k <= splits@.len(),
                    ns == names(splits@),
                    deeps(self.results@) == split_all(rows, ns.subrange(0, k as int)),
                    self.limit == old(self).limit,
                    self.start == old(self).start,
                    self.entries == old(self).entries,
                    self.error == old(self).error,
                    self.cancelled == old(self).cancelled,
                decreases splits@.len() - k,
            {
                let next = split_field(&self.results, &splits[k]);
                self.results = next;
                assert(ns.subrange(0, k + 1).drop_last() =~= ns.subrange(0, k as int));
                k = k + 1;
            }
            assert(ns.subrange(0, k as int) =~= ns);
        }
    }
}

/// A GROUP bucket: the code of its key and its rows in arrival order.
pub type Bucket = (Seq<int>, Seq<Val>);

/// The place of key `k` among the keys of `bs`: the first bucket whose key does not
/// come before `k`.
pub open spec fn bucket_pos(bs: Seq<Bucket>, k: Seq<int>) -> int
    decreases bs.len(),
{
    if bs.len() == 0 {
        0
    } else if !lex_lt(bs[0].0, k) {
        0
    } else {
        1 + bucket_pos(bs.drop_first(), k)
    }
}

/// `bs` with `row` added under key `k`.
pub open spec fn add_row(bs: Seq<Bucket>, k: Seq<int>, row: Val) -> Seq<Bucket> {
    let i = bucket_pos(bs, k);
    if i < bs.len() && bs[i].0 == k {
        bs.update(i, (k, bs[i].1.push(row)))
    } else {
        bs.insert(i, (k, seq![row]))
    }
}

/// The buckets of `rows` keyed by their values at `paths`, in key order.
pub open spec fn buckets(rows: Seq<Val>, paths: Seq<Seq<char>>) -> Seq<Bucket>
    decreases rows.len(),
{
    if rows.len() == 0 {
        Seq::empty()
    } else {
        add_row(buckets(rows.drop_last(), paths), key_code(rows.last(), paths), rows.last())
    }
}

/// Whether the keys of `bs` are strictly increasing.
pub open spec fn keys_increasing(bs: Seq<Bucket>) -> bool {
    forall|i: int, j: int| 0 <= i < j < bs.len() ==> lex_lt(#[trigger] bs[i].0, #[trigger] bs[j].0)
}

pub open spec fn count_name() -> Seq<char> {
    seq!['c', 'o', 'u', 'n', 't']
}

/// The name under which a projected field is output.
pub open spec fn field_name(expr: Expr, alias: Option<String>) -> Seq<char> {
    match alias {
        Some(a) => a@,
        None => match expr {
            Expr::Idiom(p) => p@,
            Expr::Count => count_name(),
            Expr::Collect(p) => p@,
        },
    }
}

/// The value of a projected field over the rows of a bucket: an aggregate over all
/// of them, anything else on the first.
pub open spec fn field_value(expr: Expr, members: Seq<Val>) -> Val {
    match expr {
        Expr::Count => Val::Number(members.len() as i64 as int),
        Expr::Collect(p) => Val::Array(members.map_values(|m: Val| get(m, p@))),
        Expr::Idiom(p) => get(members[0], p@),
    }
}

/// The output row of a bucket.
pub open spec fn project(fields: Seq<Field>, members: Seq<Val>) -> Val
    decreases fields.len(),
{
    if fields.len() == 0 {
        Val::Object(Seq::empty())
    } else {
        let o = project(fields.drop_last(), members);
        match fields.last() {
            Field::All => o,
            Field::Single { expr, alias } => put(o, field_name(expr, alias), field_value(expr, members)),
        }
    }
}

/// The rows that GROUP outputs.
pub open spec fn grouped(rows: Seq<Val>, fields: Seq<Field>, paths: Seq<Seq<char>>) -> Seq<Val> {
    buckets(rows, paths).map_values(|b: Bucket| project(fields, b.1))
}

/// Where `bucket_pos` stands: every key before it comes before `k`, the key at
/// it does not.
pub proof fn lemma_bucket_pos(bs: Seq<Bucket>, k: Seq<int>)
    ensures
        0 <= bucket_pos(bs, k) <= bs.len(),
        forall|j: int| 0 <= j < bucket_pos(bs, k) ==> lex_lt(#[trigger] bs[j].0, k),
        bucket_pos(bs, k) < bs.len() ==> !lex_lt(bs[bucket_pos(bs, k)].0, k),
    decreases bs.len(),
{
    if bs.len() > 0 && lex_lt(bs[0].0, k) {
        lemma_bucket_pos(bs.drop_first(), k);
        assert forall|j: int| 0 <= j < bucket_pos(bs, k) implies lex_lt(#[trigger] bs[j].0, k) by {
            if j > 0 {
                assert(bs[j] == bs.drop_first()[j - 1]);
            }
        }
    }
}

proof fn lemma_bucket_pos_at(bs: Seq<Bucket>, k: Seq<int>, p: int)
    requires
        0 <= p <= bs.len(),
        forall|j: int| 0 <= j < p ==> lex_lt(#[trigger] bs[j].0, k),
        p < bs.len() ==> !lex_lt(bs[p].0, k),
    ensures
        bucket_pos(bs, k) == p,
    decreases bs.len(),
{
    if bs.len() > 0 && p > 0 {
        assert(lex_lt(bs[0].0, k));
        assert forall|j: int| 0 <= j < p - 1 implies lex_lt(#[trigger] bs.drop_first()[j].0, k) by {
            assert(bs.drop_first()[j] == bs[j + 1]);
        }
        lemma_bucket_pos_at(bs.drop_first(), k, p - 1);
    }
}

/// Adding a row keeps the keys strictly increasing.
proof fn lemma_add_row_increasing(bs: Seq<Bucket>, k: Seq<int>, row: Val)
    requires
        keys_increasing(bs),
    ensures
        keys_increasing(add_row(bs, k, row)),
{
    lemma_bucket_pos(bs, k);
    let i = bucket_pos(bs, k);
    let r = add_row(bs, k, row);
    if i < bs.len() && bs[i].0 == k {
        assert forall|a: int, b: int| 0 <= a < b < r.len() implies lex_lt(#[trigger] r[a].0, #[trigger] r[b].0) by {
            assert(r[a].0 == bs[a].0 && r[b].0 == bs[b].0);
        }
    } else {
        if i < bs.len() {
            lemma_lex_total(bs[i].0, k);
        }
        assert forall|a: int, b: int| 0 <= a < b < r.len() implies lex_lt(#[trigger] r[a].0, #[trigger] r[b].0) by {
            assert(r[i].0 == k);
            if a < i {
                assert(r[a] == bs[a]);
            }
            if b > i {
                assert(r[b] == bs[b - 1]);
            }
            if a < i && b == i {
            } else if a < i && b > i {
                assert(lex_lt(bs[a].0, bs[b - 1].0));
            } else if a == i && b > i {
                if b - 1 > i {
                    crate::collate::lemma_lex_trans(k, bs[i].0, bs[b - 1].0);
                }
            } else if a > i {
                assert(r[a] == bs[a - 1] && r[b] == bs[b - 1]);
            } else {
                assert(r[a] == bs[a] && r[b] == bs[b]);
            }
        }
    }
}

/// GROUP's buckets come in strictly increasing key order, whatever the order of
/// the rows.
pub proof fn lemma_buckets_increasing(rows: Seq<Val>, paths: Seq<Seq<char>>)
    ensures
        keys_increasing(buckets(rows, paths)),
    decreases rows.len(),
{
    if rows.len() > 0 {
        lemma_buckets_increasing(rows.drop_last(), paths);
        lemma_add_row_increasing(buckets(rows.drop_last(), paths), key_code(rows.last(), paths), rows.last());
    }
}

pub open spec fn bucket_view(keys: Seq<Vec<i64>>, groups: Seq<Vec<Value>>) -> Seq<Bucket> {
    Seq::new(keys.len(), |j: int| (ints(keys[j]@), deeps(groups[j]@)))
}

/// The values at field `p` of every row of `members`.
fn collect(members: &Vec<Value>, p: &String) -> (r: Value)
    ensures
        deep(r) == Val::Array(deeps(members@).map_values(|m: Val| get(m, p@))),
{
    let ghost ms = deeps(members@);
    let mut out: Vec<Value> = Vec::new();
    let mut i: usize = 0;
    while i < members.len()
        invariant
            i <= members@.len(),
            ms == deeps(members@),
            deeps(out@) == ms.subrange(0, i as int).map_values(|m: Val| get(m, p@)),
        decreases members@.len() - i,
    {
        let x = members[i].pick(p);
        let ghost prev = out@;
        let ghost dx = deep(x);
        out.push(x);
        assert(deeps(out@) =~= deeps(prev).push(dx));
        assert(deeps(out@) =~= ms.subrange(0, i + 1).map_values(|m: Val| get(m, p@)));
        i = i + 1;
    }
    assert(ms.subrange(0, i as int) =~= ms);
    let r = Value::Array(out);
    assert(deep(r)->Array_0 =~= deeps(out@));
    r
}

/// The output row of the bucket `members`.
fn project_bucket(fields: &Vec<Field>, members: &Vec<Value>) -> (r: Value)
    requires
        members@.len() > 0,
    ensures
        deep(r) == project(fields@, deeps(members@)),
{
    let ghost ms = deeps(members@);
    let mut obj = Value::Object(Vec::new());
    let mut i: usize = 0;
    assert(deep(obj)->Object_0 =~= Seq::empty());
    while i < fields.len()
        invariant
            i <= fields@.len(),
            ms == deeps(members@),
            members@.len() > 0,
            deep(obj) == project(fields@.subrange(0, i as int), ms),
        decreases fields@.len() - i,
    {
        let ghost fs = fields@.subrange(0, i + 1);
        assert(fs.drop_last() =~= fields@.subrange(0, i as int));
        match &fields[i] {
            Field::All => {},
            Field::Single { expr, alias } => {
                let name = match alias {
                    Some(a) => a.clone(),
                    None => match expr {
                        Expr::Idiom(p) => p.clone(),
                        Expr::Collect(p) => p.clone(),
                        Expr::Count => {
                            let c = "count".to_string();
                            proof {
                                reveal_strlit("count");
                                assert(c@ =~= count_name());
                            }
                            c
                        },
                    },
                };
                let x = match expr {
                    Expr::Count => Value::Number(members.len() as i64),
                    Expr::Collect(p) => collect(members, p),
                    Expr::Idiom(p) => members[0].pick(p),
                };
                obj.set(&name, x);
            },
        }
        i = i + 1;
    }
    assert(fields@.subrange(0, i as int) =~= fields@);
    obj
}

impl Iterator {
    /// Replaces the rows by one row per GROUP bucket, buckets in key order.
    pub fn output_group(&mut self, stm: &Statement)
        ensures
            deeps(final(self).results@) == match (stm.expr, stm.group) {
                (Some(fields), Some(paths)) => grouped(deeps(old(self).results@), fields@, names(paths@)),
                _ => deeps(old(self).results@),
            },
            final(self).limit == old(self).limit,
            final(self).start == old(self).start,
            final(self).entries == old(self).entries,
            final(self).error == old(self).error,
            final(self).cancelled == old(self).cancelled,
    {
        if let Some(fields) = &stm.expr {
            if let Some(groups) = &stm.group {
                let ghost rows = deeps(self.results@);
                let ghost ps = names(groups@);
                let mut keys: Vec<Vec<i64>> = Vec::new();
                let mut members: Vec<Vec<Value>> = Vec::new();
                let mut i: usize = 0;
                assert(bucket_view(keys@, members@) =~= buckets(rows.subrange(0, 0), ps));
                while i < self.results.len()
                    invariant
                        i <= self.results@.len(),
                        rows == deeps(self.results@),
                        ps == names(groups@),
                        keys@.len() == members@.len(),
                        bucket_view(keys@, members@) == buckets(rows.subrange(0, i as int), ps),
                        forall|j: int| 0 <= j < members@.len() ==> (#[trigger] members@[j])@.len() > 0,
                    decreases self.results@.len() - i,
                {
                    let ghost bs = bucket_view(keys@, members@);
                    let k = encode_key(&self.results[i], groups);
                    assert(names(groups@) == groups@.map_values(|p: String| p@));
                    let mut p: usize = 0;
                    while p < keys.len() && code_less(&keys[p], &k)
                        invariant
                            p <= keys@.len(),
                            bs == bucket_view(keys@, members@),
                            forall|j: int| 0 <= j < p ==> lex_lt(#[trigger] bs[j].0, ints(k@)),
                        decreases keys@.len() - p,
                    {
                        p = p + 1;
                    }
                    proof {
                        lemma_bucket_pos_at(bs, ints(k@), p as int);
                        assert(rows.subrange(0, i + 1).drop_last() =~= rows.subrange(0, i as int));
                    }
                    let row = self.results[i].copy();
                    let ghost kk = ints(k@);
                    let ghost dr = deep(row);
                    assert(dr == rows[i as int]);
                    if p < keys.len() && code_eq(&keys[p], &k) {
                        let mut g = members.remove(p);
                        let ghost g0 = g@;
                        g.push(row);
                        assert(deeps(g@) =~= deeps(g0).push(dr));
                        members.insert(p, g);
                        assert(bucket_view(keys@, members@) =~= add_row(bs, kk, rows[i as int]));
                    } else {
                        keys.insert(p, k);
                        let mut g: Vec<Value> = Vec::new();
                        g.push(row);
                        assert(deeps(g@) =~= seq![dr]);
                        members.insert(p, g);
                        assert(bucket_view(keys@, members@) =~= add_row(bs, kk, rows[i as int]));
                    }
                    i = i + 1;
                }
                assert(rows.subrange(0, i as int) =~= rows);
                let ghost bs = bucket_view(keys@, members@);
                let mut out: Vec<Value> = Vec::new();
                let mut j: usize = 0;
                while j < members.len()
                    invariant
                        j <= members@.len(),
                        bs == bucket_view(keys@, members@),
                        keys@.len() == members@.len(),
                        forall|q: int| 0 <= q < members@.len() ==> (#[trigger] members@[q])@.len() > 0,
                        deeps(out@) == bs.subrange(0, j as int).map_values(|b: Bucket| project(fields@, b.1)),
                    decreases members@.len() - j,
                {
                    let x = project_bucket(fields, &members[j]);
                    let ghost prev = out@;
                    let ghost dx = deep(x);
                    out.push(x);
                    assert(deeps(out@) =~= deeps(prev).push(dx));
                    assert(deeps(out@) =~= bs.subrange(0, j + 1).map_values(|b: Bucket| project(fields@, b.1)));
                    j = j + 1;
                }
                assert(bs.subrange(0, j as int) =~= bs);
                self.results = out;
            }
        }
    }
}

/// Relies on rand::random: a fresh number from the thread-local generator, of which
/// nothing is known.
#[verifier::external_body]
fn random_u64() -> (r: u64) {
    rand::random::<u64>()
}

/// Whether no ORDER clause asks for random order.
pub open spec fn no_random(orders: Seq<Order>) -> bool {
    forall|i: int| 0 <= i < orders.len() ==> !(#[trigger] orders[i]).random
}

/// Whether row `a` comes strictly before row `b` under the ORDER clauses: the first
/// clause on which the two differ decides, a descending clause the other way round.
pub open spec fn row_before(a: Val, b: Val, orders: Seq<Order>) -> bool
    decreases orders.len(),
{
    if orders.len() == 0 {
        false
    } else {
        let o = orders[0];
        let x = enc(get(a, o.field@));
        let y = enc(get(b, o.field@));
        let (p, q) = if o.direction { (x, y) } else { (y, x) };
        if lex_lt(p, q) {
            true
        } else if lex_lt(q, p) {
            false
        } else {
            row_before(a, b, orders.drop_first())
        }
    }
}

/// Whether no row comes strictly before the row in front of it.
pub open spec fn sorted_by(rows: Seq<Val>, orders: Seq<Order>) -> bool {
    forall|i: int| 0 <= i < rows.len() - 1 ==> !row_before(#[trigger] rows[i + 1], rows[i], orders)
}

/// The number of ORDER clauses before the first random one.
pub open spec fn fixed_len(orders: Seq<Order>) -> int
    decreases orders.len(),
{
    if orders.len() == 0 {
        0
    } else if orders[0].random {
        0
    } else {
        1 + fixed_len(orders.drop_first())
    }
}

/// The ORDER clauses before the first random one: they order rows for certain.
pub open spec fn fixed_orders(orders: Seq<Order>) -> Seq<Order> {
    orders.subrange(0, fixed_len(orders))
}

proof fn lemma_fixed_len(orders: Seq<Order>)
    ensures
        0 <= fixed_len(orders) <= orders.len(),
        forall|i: int| 0 <= i < fixed_len(orders) ==> !(#[trigger] orders[i]).random,
        fixed_len(orders) < orders.len() ==> orders[fixed_len(orders)].random,
        no_random(orders) ==> fixed_orders(orders) == orders,
    decreases orders.len(),
{
    if orders.len() > 0 && !orders[0].random {
        lemma_fixed_len(orders.drop_first());
        assert forall|i: int| 0 <= i < fixed_len(orders) implies !(#[trigger] orders[i]).random by {
            if i > 0 {
                assert(orders[i] == orders.drop_first()[i - 1]);
            }
        }
        if no_random(orders) {
            assert(no_random(orders.drop_first()));
        }
    }
    if no_random(orders) {
        if fixed_len(orders) < orders.len() {
            assert(orders[fixed_len(orders)].random);
        }
        assert(fixed_orders(orders) =~= orders);
    }
}

/// Whether `a` comes strictly before `b`. The clauses before the first random one
/// decide where they can; past that, a random clause draws the answer.
fn precedes(a: &Value, b: &Value, orders: &Vec<Order>) -> (r: bool)
    ensures
        row_before(deep(*a), deep(*b), fixed_orders(orders@)) ==> r,
        row_before(deep(*b), deep(*a), fixed_orders(orders@)) ==> !r,
        no_random(orders@) ==> r == row_before(deep(*a), deep(*b), orders@),
{
    let ghost os = orders@;
    let ghost da = deep(*a);
    let ghost db = deep(*b);
    let ghost e = fixed_len(os);
    let ghost fx = fixed_orders(os);
    proof {
        lemma_fixed_len(os);
    }
    let mut i: usize = 0;
    assert(os.subrange(0, os.len() as int) =~= os);
    while i < orders.len()
        invariant
            i <= os.len(),
            os == orders@,
            da == deep(*a),
            db == deep(*b),
            e == fixed_len(os),
            fx == fixed_orders(os),
            0 <= e <= os.len(),
            forall|j: int| 0 <= j < e ==> !(#[trigger] os[j]).random,
            i <= e ==> row_before(da, db, fx) == row_before(da, db, os.subrange(i as int, e))
                && row_before(db, da, fx) == row_before(db, da, os.subrange(i as int, e)),
            i >= e ==> !row_before(da, db, fx) && !row_before(db, da, fx),
            no_random(os) ==> row_before(da, db, os) == row_before(
                da,
                db,
                os.subrange(i as int, os.len() as int),
            ),
        decreases os.len() - i,
    {
        let o = &orders[i];
        let ghost rest = os.subrange(i as int, os.len() as int);
        assert(rest[0] == os[i as int]);
        assert(rest.drop_first() =~= os.subrange(i + 1, os.len() as int));
        let ghost sub = if (i as int) < e { os.subrange(i as int, e) } else { Seq::empty() };
        proof {
            if (i as int) < e {
                assert(sub[0] == os[i as int]);
                assert(sub.drop_first() =~= os.subrange(i + 1, e));
            }
        }
        if o.random {
            let x = random_u64();
            let y = random_u64();
            if x < y {
                return true;
            } else if x > y {
                return false;
            }
        } else {
            let va = a.pick(&o.field);
            let vb = b.pick(&o.field);
            let mut x: Vec<i64> = Vec::new();
            let mut y: Vec<i64> = Vec::new();
            encode_value(&va, &mut x);
            encode_value(&vb, &mut y);
            assert(ints(x@) =~= enc(deep(va)));
            assert(ints(y@) =~= enc(deep(vb)));
            proof {
                lemma_lex_total(enc(deep(va)), enc(deep(vb)));
            }
            let (p, q) = if o.direction { (&x, &y) } else { (&y, &x) };
            if code_less(p, q) {
                return true;
            } else if code_less(q, p) {
                return false;
            }
        }
        proof {
            if (i as int) + 1 == e {
                let emp = os.subrange(i + 1, e);
                assert(emp =~= Seq::<Order>::empty());
                assert(!row_before(da, db, emp));
                assert(!row_before(db, da, emp));
                assert(row_before(da, db, sub) == row_before(da, db, emp));
                assert(row_before(db, da, sub) == row_before(db, da, emp));
            }
        }
        i = i + 1;
    }
    false
}

impl Iterator {
    /// Sorts the rows by the ORDER clauses. The rows are kept, rearranged, and no
    /// row ends up before one that the clauses before the first random one put
    /// after it; without a random clause that is every clause.
    pub fn output_order(&mut self, stm: &Statement)
        ensures
            deeps(final(self).results@).to_multiset() == deeps(old(self).results@).to_multiset(),
            match stm.order {
                Some(os) => {
                    &&& sorted_by(deeps(final(self).results@), fixed_orders(os@))
                    &&& no_random(os@) ==> sorted_by(deeps(final(self).results@), os@)
                },
                None => final(self).results == old(self).results,
            },
            final(self).limit == old(self).limit,
            final(self).start == old(self).start,
            final(self).entries == old(self).entries,
            final(self).error == old(self).error,
            final(self).cancelled == old(self).cancelled,
    {
        if let Some(orders) = &stm.order {
            let ghost rows = deeps(self.results@);
            let ghost os = orders@;
            let ghost fx = fixed_orders(os);
            let mut out: Vec<Value> = Vec::new();
            let mut i: usize = 0;
            assert(deeps(out@) =~= Seq::<Val>::empty());
            assert(rows.subrange(0, 0) =~= Seq::<Val>::empty());
            while i < self.results.len()
                invariant
                    i <= self.results@.len(),
                    rows == deeps(self.results@),
                    os == orders@,
                    deeps(out@).to_multiset() == rows.subrange(0, i as int).to_multiset(),
                    fx == fixed_orders(os),
                    sorted_by(deeps(out@), fx),
                decreases self.results@.len() - i,
            {
                let x = self.results[i].copy();
                let ghost dx = deep(x);
                let ghost cur = deeps(out@);
                let mut p: usize = 0;
                while p < out.len()
                    invariant
                        p <= out@.len(),
                        cur == deeps(out@),
                        os == orders@,
                        dx == deep(x),
                        fx == fixed_orders(os),
                        forall|j: int| 0 <= j < p ==> !row_before(dx, #[trigger] cur[j], fx),
                    ensures
                        p <= out@.len(),
                        fx == fixed_orders(os),
                        forall|j: int| 0 <= j < p ==> !row_before(dx, #[trigger] cur[j], fx),
                        p < out@.len() ==> !row_before(cur[p as int], dx, fx),
                    decreases out@.len() - p,
                {
                    if precedes(&x, &out[p], orders) {
                        break;
                    }
                    p = p + 1;
                }
                out.insert(p, x);
                proof {
                    let nxt = deeps(out@);
                    assert(nxt =~= cur.insert(p as int, dx));
                    vstd::seq_lib::to_multiset_insert(cur, p as int, dx);
                    assert(rows.subrange(0, i + 1) =~= rows.subrange(0, i as int).push(rows[i as int]));
                    vstd::seq_lib::to_multiset_build(rows.subrange(0, i as int), rows[i as int]);
                    assert forall|j: int| 0 <= j < nxt.len() - 1 implies !row_before(#[trigger] nxt[j + 1], nxt[j], fx) by {
                            if j + 1 < p {
                                assert(nxt[j] == cur[j] && nxt[j + 1] == cur[j + 1]);
                                assert(!row_before(cur[j + 1], cur[j], fx));
                            } else if j + 1 == p {
                                assert(nxt[j] == cur[j] && nxt[j + 1] == dx);
                                assert(!row_before(dx, cur[j], fx));
                            } else if j == p {
                                assert(nxt[j] == dx && nxt[j + 1] == cur[j]);
                                assert(!row_before(cur[j], dx, fx));
                            } else {
                                assert(nxt[j] == cur[j - 1] && nxt[j + 1] == cur[j]);
                                assert(!row_before(cur[(j - 1) + 1], cur[j - 1], fx));
                            }
                        }
                }
                i = i + 1;
            }
            assert(rows.subrange(0, i as int) =~= rows);
            proof {
                lemma_fixed_len(os);
            }
            self.results = out;
        }
    }
}

/// The stored records that FETCH resolves references against, by table and key.
pub open spec fn record_views(recs: Seq<(Thing, Value)>) -> Seq<(Seq<char>, int, Val)> {
    recs.map_values(|r: (Thing, Value)| (r.0.tb@, r.0.id as int, deep(r.1)))
}

/// Position of the first record `tb:id`, or the number of records when none is.
pub open spec fn record_index(rv: Seq<(Seq<char>, int, Val)>, tb: Seq<char>, id: int) -> int
    decreases rv.len(),
{
    if rv.len() == 0 {
        0
    } else if rv[0].0 == tb && rv[0].1 == id {
        0
    } else {
        1 + record_index(rv.drop_first(), tb, id)
    }
}

/// `row` with the reference at field `f` replaced by the record it names; a
/// dangling reference, or a field that holds no reference, is left as it is.
pub open spec fn fetch_row(row: Val, f: Seq<char>, rv: Seq<(Seq<char>, int, Val)>) -> Val {
    match get(row, f) {
        Val::Thing(tb, id) => {
            let i = record_index(rv, tb, id);
            if i < rv.len() {
                put(row, f, rv[i].2)
            } else {
                row
            }
        },
        _ => row,
    }
}

/// The rows with each FETCH field resolved in turn.
pub open spec fn fetch_rows(rows: Seq<Val>, fs: Seq<Seq<char>>, rv: Seq<(Seq<char>, int, Val)>) -> Seq<Val>
    decreases fs.len(),
{
    if fs.len() == 0 {
        rows
    } else {
        fetch_rows(rows, fs.drop_last(), rv).map_values(|r: Val| fetch_row(r, fs.last(), rv))
    }
}

proof fn lemma_record_index(rv: Seq<(Seq<char>, int, Val)>, tb: Seq<char>, id: int, i: int)
    requires
        0 <= i <= rv.len(),
        forall|j: int| 0 <= j < i ==> !(rv[j].0 == tb && rv[j].1 == id),
        i == rv.len() || (rv[i].0 == tb && rv[i].1 == id),
    ensures
        record_index(rv, tb, id) == i,
    decreases rv.len(),
{
    if rv.len() > 0 && i > 0 {
        lemma_record_index(rv.drop_first(), tb, id, i - 1);
    }
}

/// Resolves the reference at field `f` of `row`.
fn fetch_one(row: &mut Value, f: &String, records: &Vec<(Thing, Value)>)
    ensures
        deep(*final(row)) == fetch_row(deep(*old(row)), f@, record_views(records@)),
{
    let ghost rv = record_views(records@);
    let x = row.pick(f);
    if let Value::Thing(t) = x {
        let mut i: usize = 0;
        while i < records.len()
            invariant
                i <= records@.len(),
                rv == record_views(records@),
                forall|j: int| 0 <= j < i ==> !(rv[j].0 == t.tb@ && rv[j].1 == t.id as int),
            ensures
                i <= records@.len(),
                forall|j: int| 0 <= j < i ==> !(rv[j].0 == t.tb@ && rv[j].1 == t.id as int),
                i == records@.len() || (rv[i as int].0 == t.tb@ && rv[i as int].1 == t.id as int),
            decreases records@.len() - i,
        {
            if records[i].0.tb == t.tb && records[i].0.id == t.id {
                break;
            }
            i = i + 1;
        }
        proof {
            lemma_record_index(rv, t.tb@, t.id as int, i as int);
        }
        if i < records.len() {
            let v = records[i].1.copy();
            row.set(f, v);
        }
    }
}

/// The model of a record identity as a value.
pub open spec fn thing_val(t: Thing) -> Val {
    Val::Thing(t.tb@, t.id as int)
}

fn thing_value(t: &Thing) -> (r: Value)
    ensures
        deep(r) == thing_val(*t),
{
    Value::Thing(Thing { tb: t.tb.clone(), id: t.id })
}

/// The report of one data source: the kind of iteration and what it reads.
pub open spec fn explain_entry(e: Iterable) -> Val {
    let (op, detail) = match e {
        Iterable::Value(v) => ("Iterate Value"@, seq![("value"@, deep(v))]),
        Iterable::Table(t) => ("Iterate Table"@, seq![("table"@, Val::Strand(t@))]),
        Iterable::Thing(t) => ("Iterate Thing"@, seq![("thing"@, thing_val(t))]),
        Iterable::Range(r) => ("Iterate Range"@, seq![("table"@, Val::Strand(r.tb@))]),
        Iterable::Edges(e) => ("Iterate Edges"@, seq![("from"@, thing_val(e.from))]),
        Iterable::Mergeable(t, v) => (
            "Iterate Mergeable"@,
            seq![("thing"@, thing_val(t)), ("value"@, deep(v))],
        ),
        Iterable::Relatable(a, b, c) => (
            "Iterate Relatable"@,
            seq![("thing-1"@, thing_val(a)), ("thing-2"@, thing_val(b)), ("thing-3"@, thing_val(c))],
        ),
        Iterable::Index(t, p) => (
            "Iterate Index"@,
            seq![("table"@, Val::Strand(t@)), ("plan"@, deep(p.explanation))],
        ),
    };
    Val::Object(seq![("operation"@, Val::Strand(op)), ("detail"@, Val::Object(detail))])
}

/// The EXPLAIN row of the data sources.
pub open spec fn explain_all(es: Seq<Iterable>) -> Val {
    Val::Object(seq![("explain"@, Val::Array(es.map_values(|e: Iterable| explain_entry(e))))])
}

fn field(name: &str, v: Value) -> (r: (String, Value))
    ensures
        r.0@ == name@,
        r.1 == v,
{
    (name.to_string(), v)
}

fn obj1(a: (String, Value)) -> (r: Value)
    ensures
        deep(r) == Val::Object(seq![(a.0@, deep(a.1))]),
{
    let mut fs: Vec<(String, Value)> = Vec::new();
    let ghost d = (a.0@, deep(a.1));
    fs.push(a);
    let r = Value::Object(fs);
    assert(deep(r)->Object_0 =~= seq![d]);
    r
}

fn obj2(a: (String, Value), b: (String, Value)) -> (r: Value)
    ensures
        deep(r) == Val::Object(seq![(a.0@, deep(a.1)), (b.0@, deep(b.1))]),
{
    let mut fs: Vec<(String, Value)> = Vec::new();
    let ghost d = seq![(a.0@, deep(a.1)), (b.0@, deep(b.1))];
    fs.push(a);
    fs.push(b);
    let r = Value::Object(fs);
    assert(deep(r)->Object_0 =~= d);
    r
}

fn obj3(a: (String, Value), b: (String, Value), c: (String, Value)) -> (r: Value)
    ensures
        deep(r) == Val::Object(seq![(a.0@, deep(a.1)), (b.0@, deep(b.1)), (c.0@, deep(c.1))]),
{
    let mut fs: Vec<(String, Value)> = Vec::new();
    let ghost d = seq![(a.0@, deep(a.1)), (b.0@, deep(b.1)), (c.0@, deep(c.1))];
    fs.push(a);
    fs.push(b);
    fs.push(c);
    let r = Value::Object(fs);
    assert(deep(r)->Object_0 =~= d);
    r
}

fn strand(s: &str) -> (r: Value)
    ensures
        deep(r) == Val::Strand(s@),
{
    Value::Strand(s.to_string())
}

fn explain_one(e: &Iterable) -> (r: Value)
    ensures
        deep(r) == explain_entry(*e),
{
    let (op, detail) = match e {
        Iterable::Value(v) => ("Iterate Value", obj1(field("value", v.copy()))),
        Iterable::Table(t) => ("Iterate Table", obj1(field("table", Value::Strand(t.clone())))),
        Iterable::Thing(t) => ("Iterate Thing", obj1(field("thing", thing_value(t)))),
        Iterable::Range(r) => ("Iterate Range", obj1(field("table", Value::Strand(r.tb.clone())))),
        Iterable::Edges(x) => ("Iterate Edges", obj1(field("from", thing_value(&x.from)))),
        Iterable::Mergeable(t, v) => (
            "Iterate Mergeable",
            obj2(field("thing", thing_value(t)), field("value", v.copy())),
        ),
        Iterable::Relatable(a, b, c) => (
            "Iterate Relatable",
            obj3(
                field("thing-1", thing_value(a)),
                field("thing-2", thing_value(b)),
                field("thing-3", thing_value(c)),
            ),
        ),
        Iterable::Index(t, p) => (
            "Iterate Index",
            obj2(field("table", Value::Strand(t.clone())), field("plan", p.explanation.copy())),
        ),
    };
    obj2(field("operation", strand(op)), field("detail", detail))
}

impl Iterator {
    /// Resolves each FETCH field of every row, against `records`.
    pub fn output_fetch(&mut self, stm: &Statement, records: &Vec<(Thing, Value)>)
        ensures
            deeps(final(self).results@) == match stm.fetch {
                Some(fs) => fetch_rows(deeps(old(self).results@), names(fs@), record_views(records@)),
                None => deeps(old(self).results@),
            },
            final(self).limit == old(self).limit,
            final(self).start == old(self).start,
            final(self).entries == old(self).entries,
            final(self).error == old(self).error,
            final(self).cancelled == old(self).cancelled,
    {
        if let Some(fetchs) = &stm.fetch {
            let ghost rows = deeps(self.results@);
            let ghost ns = names(fetchs@);
            let ghost rv = record_views(records@);
            let mut k: usize = 0;
            while k < fetchs.len()
                invariant
                    k <= fetchs@.len(),
                    ns == names(fetchs@),
                    rv == record_views(records@),
                    deeps(self.results@) == fetch_rows(rows, ns.subrange(0, k as int), rv),
                    self.limit == old(self).limit,
                    self.start == old(self).start,
                    self.entries == old(self).entries,
                    self.error == old(self).error,
                    self.cancelled == old(self).cancelled,
                decreases fetchs@.len() - k,
            {
                let ghost before = deeps(self.results@);
                let mut out: Vec<Value> = Vec::new();
                let mut res: Vec<Value> = Vec::new();
                std::mem::swap(&mut res, &mut self.results);
                let mut i: usize = 0;
                while i < res.len()
                    invariant
                        i <= res@.len(),
                        before == deeps(res@),
                        deeps(out@) == before.subrange(0, i as int).map_values(|r: Val| fetch_row(r, ns[k as int], rv)),
                        ns == names(fetchs@),
                        rv == record_views(records@),
                        k < fetchs@.len(),
                    decreases res@.len() - i,
                {
                    let mut x = res[i].copy();
                    fetch_one(&mut x, &fetchs[k], records);
                    let ghost dx = deep(x);
                    let ghost prev = out@;
                    out.push(x);
                    assert(deeps(out@) =~= deeps(prev).push(dx));
                    assert(deeps(out@) =~= before.subrange(0, i + 1).map_values(|r: Val| fetch_row(r, ns[k as int], rv)));
                    i = i + 1;
                }
                assert(before.subrange(0, i as int) =~= before);
                self.results = out;
                assert(ns.subrange(0, k + 1).drop_last() =~= ns.subrange(0, k as int));
                k = k + 1;
            }
            assert(ns.subrange(0, k as int) =~= ns);
        }
    }

    /// The EXPLAIN row, when the statement asks for one.
    pub fn output_explain(&self, stm: &Statement) -> (r: Option<Value>)
        ensures
            stm.explain ==> r is Some && deep(r->0) == explain_all(self.entries@),
            !stm.explain ==> r is None,
    {
        if stm.explain {
            let mut explains: Vec<Value> = Vec::new();
            let ghost es = self.entries@;
            let mut i: usize = 0;
            while i < self.entries.len()
                invariant
                    i <= es.len(),
                    es == self.entries@,
                    deeps(explains@) == es.subrange(0, i as int).map_values(|e: Iterable| explain_entry(e)),
                decreases es.len() - i,
            {
                let x = explain_one(&self.entries[i]);
                let ghost dx = deep(x);
                let ghost prev = explains@;
                explains.push(x);
                assert(deeps(explains@) =~= deeps(prev).push(dx));
                assert(deeps(explains@) =~= es.subrange(0, i + 1).map_values(|e: Iterable| explain_entry(e)));
                i = i + 1;
            }
            assert(es.subrange(0, i as int) =~= es);
            let arr = Value::Array(explains);
            assert(deep(arr)->Array_0 =~= deeps(explains@));
            Some(obj1(field("explain", arr)))
        } else {
            None
        }
    }
}

/// The LIMIT in force once the statement's clause is resolved.
pub open spec fn resolved_limit(stm: Statement, cur: Option<usize>) -> Option<usize> {
    match stm.limit {
        Some(v) => Some(v as usize),
        None => cur,
    }
}

/// The START in force once the statement's clause is resolved.
pub open spec fn resolved_start(stm: Statement, cur: Option<usize>) -> Option<usize> {
    match stm.start {
        Some(v) => Some(v as usize),
        None => cur,
    }
}

/// Whether the iteration at `depth` would nest deeper than allowed.
pub open spec fn too_deep(depth: u32) -> bool {
    depth as int + ITERATE_DEPTH as int > MAX_COMPUTATION_DEPTH as int
}

/// The error that stops a query before any candidate is looked at, if any: a
/// negative LIMIT, then a negative START, then too deep a nesting.
pub open spec fn setup_error(stm: Statement, depth: u32) -> Option<Error> {
    if stm.limit is Some && stm.limit->0 < 0 {
        Some(Error::InvalidLimit(stm.limit->0))
    } else if stm.start is Some && stm.start->0 < 0 {
        Some(Error::InvalidStart(stm.start->0))
    } else if too_deep(depth) {
        Some(Error::ComputationDepthExceeded)
    } else {
        None
    }
}

/// What iteration gathers when `output` runs on `it` with these outcomes.
pub open spec fn gathered(it: Iterator, outs: Seq<Result<Value, Error>>, stm: Statement) -> Acc {
    run(
        Acc { cancelled: false, error: it.error, results: it.results@ },
        outs,
        stm,
        resolved_limit(stm, it.limit),
        resolved_start(stm, it.start),
    )
}

pub open spec fn split_stage(rows: Seq<Val>, stm: Statement) -> Seq<Val> {
    match stm.split {
        Some(fs) => split_all(rows, names(fs@)),
        None => rows,
    }
}

pub open spec fn group_stage(rows: Seq<Val>, stm: Statement) -> Seq<Val> {
    match (stm.expr, stm.group) {
        (Some(fields), Some(paths)) => grouped(rows, fields@, names(paths@)),
        _ => rows,
    }
}

/// Whether `s` is what ORDER may make of `rows`: the same rows, sorted unless a
/// clause is random, and untouched without ORDER.
pub open spec fn ordered(s: Seq<Val>, rows: Seq<Val>, stm: Statement) -> bool {
    &&& s.to_multiset() == rows.to_multiset()
    &&& match stm.order {
        Some(os) => sorted_by(s, fixed_orders(os@)) && (no_random(os@) ==> sorted_by(s, os@)),
        None => s == rows,
    }
}

pub open spec fn page(rows: Seq<Val>, start: Option<usize>, limit: Option<usize>) -> Seq<Val> {
    take_rows(skip_rows(rows, start), limit)
}

pub open spec fn fetch_stage(rows: Seq<Val>, stm: Statement, rv: Seq<(Seq<char>, int, Val)>) -> Seq<Val> {
    match stm.fetch {
        Some(fs) => fetch_rows(rows, names(fs@), rv),
        None => rows,
    }
}

/// The EXPLAIN row, if there is one, as rows.
pub open spec fn extra_rows(x: Option<Value>) -> Seq<Val> {
    match x {
        Some(e) => seq![deep(e)],
        None => Seq::empty(),
    }
}

pub open spec fn explain_rows(stm: Statement, es: Seq<Iterable>) -> Seq<Val> {
    if stm.explain {
        seq![explain_all(es)]
    } else {
        Seq::empty()
    }
}

/// Whether `out` is a final output of the gathered `rows`, through ORDER result `s`.
pub open spec fn output_through(
    out: Seq<Val>,
    s: Seq<Val>,
    rows: Seq<Val>,
    stm: Statement,
    limit: Option<usize>,
    start: Option<usize>,
    rv: Seq<(Seq<char>, int, Val)>,
    es: Seq<Iterable>,
) -> bool {
    &&& ordered(s, group_stage(split_stage(rows, stm), stm), stm)
    &&& out == fetch_stage(page(s, start, limit), stm, rv) + explain_rows(stm, es)
}

impl Iterator {
    /// Drives the candidates' outcomes, in enumeration order, through the acceptor,
    /// and consumes the data sources.
    pub fn iterate(&mut self, stm: &Statement, depth: u32, outcomes: Vec<Result<Value, Error>>) -> (r: Result<(), Error>)
        ensures
            too_deep(depth) ==> r == Err::<(), Error>(Error::ComputationDepthExceeded) && *final(self) == *old(self),
            !too_deep(depth) ==> {
                &&& r is Ok
                &&& final(self).entries@.len() == 0
                &&& final(self).limit == old(self).limit
                &&& final(self).start == old(self).start
                &&& acc(*final(self)) == run(acc(*old(self)), outcomes@, *stm, old(self).limit, old(self).start)
            },
    {
        if depth > MAX_COMPUTATION_DEPTH - ITERATE_DEPTH {
            return Err(Error::ComputationDepthExceeded);
        }
        self.entries = Vec::new();
        let ghost all = outcomes@;
        let ghost a0 = acc(*old(self));
        let n: usize = outcomes.len();
        assert(all.len() == n);
        let mut outs = outcomes;
        let mut i: usize = 0;
        assert(all.subrange(0, 0) =~= Seq::<Result<Value, Error>>::empty());
        assert(all.subrange(0, all.len() as int) =~= all);
        while outs.len() > 0
            invariant
                i <= all.len(),
                all.len() <= usize::MAX,
                outs@ == all.subrange(i as int, all.len() as int),
                self.entries@.len() == 0,
                self.limit == old(self).limit,
                self.start == old(self).start,
                acc(*self) == run(a0, all.subrange(0, i as int), *stm, old(self).limit, old(self).start),
            decreases outs@.len(),
        {
            let res = outs.remove(0);
            assert(all.subrange(0, i + 1).drop_last() =~= all.subrange(0, i as int));
            assert(all.subrange(i + 1, all.len() as int) =~= all.subrange(i as int, all.len() as int).remove(0));
            self.process(stm, res);
            i = i + 1;
        }
        assert(all.subrange(0, i as int) =~= all);
        Ok(())
    }

    /// Readies a query: resolves LIMIT and START, checks the nesting depth and
    /// notes the EXPLAIN row while the data sources are still there.
    pub fn prepare(&mut self, stm: &Statement, depth: u32) -> (r: Result<Option<Value>, Error>)
        ensures
            setup_error(*stm, depth) is Some ==> r == Err::<Option<Value>, Error>(setup_error(*stm, depth)->0),
            setup_error(*stm, depth) is None ==> {
                &&& r is Ok
                &&& stm.explain ==> r->Ok_0 is Some && deep(r->Ok_0->0) == explain_all(old(self).entries@)
                &&& !stm.explain ==> r->Ok_0 is None
                &&& !final(self).cancelled
                &&& final(self).limit == resolved_limit(*stm, old(self).limit)
                &&& final(self).start == resolved_start(*stm, old(self).start)
                &&& final(self).results == old(self).results
                &&& final(self).error == old(self).error
                &&& final(self).entries == old(self).entries
            },
    {
        self.cancelled = false;
        match self.setup_limit(stm) {
            Err(e) => return Err(e),
            Ok(()) => {},
        }
        match self.setup_start(stm) {
            Err(e) => return Err(e),
            Ok(()) => {},
        }
        if depth > MAX_COMPUTATION_DEPTH - ITERATE_DEPTH {
            return Err(Error::ComputationDepthExceeded);
        }
        Ok(self.output_explain(stm))
    }

    /// Ends a query once every outcome is in: returns the first processing error,
    /// or splits, groups, orders, pages and fetches the rows and appends the
    /// EXPLAIN row.
    pub fn finish(&mut self, stm: &Statement, explanation: Option<Value>, records: &Vec<(Thing, Value)>) -> (r: Result<Value, Error>)
        ensures
            old(self).error is Some ==> r == Err::<Value, Error>(old(self).error->0),
            old(self).error is None ==> {
                &&& r is Ok
                &&& deep(r->Ok_0) is Array
                &&& exists|s: Seq<Val>|
                    ordered(s, group_stage(split_stage(deeps(old(self).results@), *stm), *stm), *stm)
                        && deep(r->Ok_0)->Array_0 == fetch_stage(
                        page(s, old(self).start, old(self).limit),
                        *stm,
                        record_views(records@),
                    ) + extra_rows(explanation)
            },
    {
        let mut err: Option<Error> = None;
        std::mem::swap(&mut err, &mut self.error);
        if let Some(e) = err {
            return Err(e);
        }
        let ghost rows = deeps(self.results@);
        self.output_split(stm);
        self.output_group(stm);
        self.output_order(stm);
        let ghost s = deeps(self.results@);
        assert(ordered(s, group_stage(split_stage(rows, *stm), *stm), *stm));
        self.output_start();
        self.output_limit();
        self.output_fetch(stm, records);
        let ghost ex: Seq<Val> = extra_rows(explanation);
        if let Some(e) = explanation {
            let ghost prev = self.results@;
            let ghost de = deep(e);
            self.results.push(e);
            assert(deeps(self.results@) =~= deeps(prev).push(de));
        }
        let mut out: Vec<Value> = Vec::new();
        std::mem::swap(&mut out, &mut self.results);
        let ghost fin = deeps(out@);
        let v = Value::Array(out);
        assert(deep(v)->Array_0 =~= fin);
        assert(fin =~= fetch_stage(page(s, old(self).start, old(self).limit), *stm, record_views(records@)) + ex);
        Ok(v)
    }

    /// Runs the query on the outcomes of its candidates, in enumeration order:
    /// `prepare`, then each outcome through the acceptor, then `finish`.
    pub fn output(
        &mut self,
        stm: &Statement,
        depth: u32,
        outcomes: Vec<Result<Value, Error>>,
        records: &Vec<(Thing, Value)>,
    ) -> (r: Result<Value, Error>)
        ensures
            setup_error(*stm, depth) is Some ==> r == Err::<Value, Error>(setup_error(*stm, depth)->0),
            setup_error(*stm, depth) is None && gathered(*old(self), outcomes@, *stm).error is Some
                ==> r == Err::<Value, Error>(gathered(*old(self), outcomes@, *stm).error->0),
            setup_error(*stm, depth) is None && gathered(*old(self), outcomes@, *stm).error is None ==> {
                &&& r is Ok
                &&& deep(r->Ok_0) is Array
                &&& exists|s: Seq<Val>|
                    output_through(
                        deep(r->Ok_0)->Array_0,
                        s,
                        deeps(gathered(*old(self), outcomes@, *stm).results),
                        *stm,
                        resolved_limit(*stm, old(self).limit),
                        resolved_start(*stm, old(self).start),
                        record_views(records@),
                        old(self).entries@,
                    )
            },
    {
        let explanation = match self.prepare(stm, depth) {
            Err(e) => return Err(e),
            Ok(x) => x,
        };
        let ghost ex = explanation;
        match self.iterate(stm, depth, outcomes) {
            Err(e) => return Err(e),
            Ok(()) => {},
        }
        let ghost mid = *self;
        let r = self.finish(stm, explanation, records);
        proof {
            if r is Ok {
                let s = choose|s: Seq<Val>|
                    ordered(s, group_stage(split_stage(deeps(mid.results@), *stm), *stm), *stm)
                        && deep(r->Ok_0)->Array_0 == fetch_stage(
                        page(s, mid.start, mid.limit),
                        *stm,
                        record_views(records@),
                    ) + extra_rows(ex);
                assert(extra_rows(ex) =~= explain_rows(*stm, old(self).entries@));
                assert(output_through(
                    deep(r->Ok_0)->Array_0,
                    s,
                    deeps(gathered(*old(self), outcomes@, *stm).results),
                    *stm,
                    resolved_limit(*stm, old(self).limit),
                    resolved_start(*stm, old(self).start),
                    record_views(records@),
                    old(self).entries@,
                ));
            }
        }
        r
    }
}

/// What iteration accumulates: whether it has stopped, the first error, the rows.
pub struct Acc {
    pub cancelled: bool,
    pub error: Option<Error>,
    pub results: Seq<Value>,
}

pub open spec fn acc(it: Iterator) -> Acc {
    Acc { cancelled: it.cancelled, error: it.error, results: it.results@ }
}

/// Accepting the outcome of one candidate.
pub open spec fn accept(a: Acc, res: Result<Value, Error>, stm: Statement, limit: Option<usize>, start: Option<usize>) -> Acc {
    match res {
        Err(Error::Ignore) => a,
        Err(e) => Acc {
            cancelled: true,
            error: if a.error is Some { a.error } else { Some(e) },
            results: a.results,
        },
        Ok(v) => if a.error is Some {
            a
        } else {
            Acc {
                cancelled: a.cancelled || enough(stm, limit, start, a.results.len() + 1int),
                error: a.error,
                results: a.results.push(v),
            }
        },
    }
}

/// One candidate: accepted unless iteration has stopped.
pub open spec fn step(a: Acc, res: Result<Value, Error>, stm: Statement, limit: Option<usize>, start: Option<usize>) -> Acc {
    if a.cancelled {
        a
    } else {
        accept(a, res, stm, limit, start)
    }
}

/// The candidates' outcomes, one after the other.
pub open spec fn run(a: Acc, outs: Seq<Result<Value, Error>>, stm: Statement, limit: Option<usize>, start: Option<usize>) -> Acc
    decreases outs.len(),
{
    if outs.len() == 0 {
        a
    } else {
        step(run(a, outs.drop_last(), stm, limit, start), outs.last(), stm, limit, start)
    }
}

/// The values among the outcomes, in order.
pub open spec fn oks(outs: Seq<Result<Value, Error>>) -> Seq<Value>
    decreases outs.len(),
{
    if outs.len() == 0 {
        Seq::empty()
    } else {
        match outs.last() {
            Ok(v) => oks(outs.drop_last()).push(v),
            Err(_) => oks(outs.drop_last()),
        }
    }
}

/// Whether an outcome is the signal to leave a candidate out.
pub open spec fn ignored(r: Result<Value, Error>) -> bool {
    r matches Err(Error::Ignore)
}

} // verus!
