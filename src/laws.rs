use vstd::prelude::*;
use crate::collate::{key_code, lemma_lex_total, lex_lt};
use crate::iterator::{
    add_row, bucket_pos, buckets, fetch_rows, fetch_stage, gathered, ignored, keys_increasing, oks,
    output_through, page, run, Acc, Bucket, Error, Iterator, Statement,
};
use crate::value::{Val, Value};

verus! {

/// Without processing errors, iteration gathers the candidates' values in the order
/// in which the data sources enumerate them: all of them unless it stopped early
/// at the LIMIT, and otherwise the first ones. Without a LIMIT it never stops early.
pub proof fn lemma_results_in_order(
    a: Acc,
    outs: Seq<Result<Value, Error>>,
    stm: Statement,
    limit: Option<usize>,
    start: Option<usize>,
)
    requires
        !a.cancelled,
        a.error is None,
        forall|i: int| 0 <= i < outs.len() ==> (#[trigger] outs[i]) is Ok || ignored(outs[i]),
    ensures
        ({
            let r = run(a, outs, stm, limit, start);
            &&& a.results.len() <= r.results.len() <= a.results.len() + oks(outs).len()
            &&& r.results == a.results + oks(outs).subrange(0, r.results.len() - a.results.len())
            &&& !r.cancelled ==> r.results == a.results + oks(outs)
            &&& limit is None ==> !r.cancelled
            &&& r.error == a.error
        }),
    decreases outs.len(),
{
    if outs.len() > 0 {
        let dl = outs.drop_last();
        assert forall|i: int| 0 <= i < dl.len() implies (#[trigger] dl[i]) is Ok || ignored(dl[i]) by {
            assert(dl[i] == outs[i]);
        }
        lemma_results_in_order(a, dl, stm, limit, start);
        let r0 = run(a, dl, stm, limit, start);
        let k = (r0.results.len() - a.results.len()) as int;
        assert(outs.last() == outs[outs.len() - 1]);
        match outs.last() {
            Ok(v) => {
                assert(oks(outs) == oks(dl).push(v));
                assert(oks(outs).subrange(0, k) =~= oks(dl).subrange(0, k));
                if !r0.cancelled {
                    assert(oks(dl).subrange(0, k) =~= oks(dl));
                    assert(oks(outs).subrange(0, k + 1) =~= oks(outs));
                }
            },
            Err(_) => {
                assert(oks(outs) == oks(dl));
            },
        }
    } else {
        assert(oks(outs).subrange(0, 0) =~= Seq::<Value>::empty());
        assert(a.results + Seq::<Value>::empty() =~= a.results);
    }
}

/// Candidates that are all left out leave the gathered state as it was: no rows
/// and no error come of them.
pub proof fn lemma_ignored_leave_nothing(
    a: Acc,
    outs: Seq<Result<Value, Error>>,
    stm: Statement,
    limit: Option<usize>,
    start: Option<usize>,
)
    requires
        forall|i: int| 0 <= i < outs.len() ==> ignored(#[trigger] outs[i]),
    ensures
        run(a, outs, stm, limit, start) == a,
    decreases outs.len(),
{
    if outs.len() > 0 {
        let dl = outs.drop_last();
        assert forall|i: int| 0 <= i < dl.len() implies ignored(#[trigger] dl[i]) by {
            assert(dl[i] == outs[i]);
        }
        lemma_ignored_leave_nothing(a, dl, stm, limit, start);
        assert(ignored(outs[outs.len() - 1]));
    }
}

/// Where one candidate fails and all the others are left out, iteration keeps
/// that failure, so that `output` returns it and no value.
pub proof fn lemma_single_error(
    a: Acc,
    outs: Seq<Result<Value, Error>>,
    k: int,
    stm: Statement,
    limit: Option<usize>,
    start: Option<usize>,
)
    requires
        a.error is None,
        !a.cancelled,
        0 <= k < outs.len(),
        outs[k] is Err,
        !ignored(outs[k]),
        forall|i: int| 0 <= i < outs.len() && i != k ==> ignored(#[trigger] outs[i]),
    ensures
        run(a, outs, stm, limit, start).error == Some(outs[k]->Err_0),
        run(a, outs, stm, limit, start).cancelled,
    decreases outs.len(),
{
    let dl = outs.drop_last();
    if k == outs.len() - 1 {
        assert forall|i: int| 0 <= i < dl.len() implies ignored(#[trigger] dl[i]) by {
            assert(dl[i] == outs[i]);
        }
        lemma_ignored_leave_nothing(a, dl, stm, limit, start);
    } else {
        assert forall|i: int| 0 <= i < dl.len() && i != k implies ignored(#[trigger] dl[i]) by {
            assert(dl[i] == outs[i]);
        }
        assert(dl[k] == outs[k]);
        lemma_single_error(a, dl, k, stm, limit, start);
        assert(ignored(outs[outs.len() - 1]));
    }
}

/// Without SPLIT, GROUP, ORDER, START, LIMIT, FETCH and EXPLAIN, the output is
/// the gathered rows as they are.
pub proof fn lemma_plain_output(
    out: Seq<Val>,
    s: Seq<Val>,
    rows: Seq<Val>,
    stm: Statement,
    rv: Seq<(Seq<char>, int, Val)>,
    es: Seq<crate::iterator::Iterable>,
)
    requires
        stm.split is None,
        stm.group is None,
        stm.order is None,
        stm.fetch is None,
        !stm.explain,
        output_through(out, s, rows, stm, None, None, rv, es),
    ensures
        out == rows,
{
    assert(out =~= rows);
}

proof fn lemma_fetch_len(rows: Seq<Val>, fs: Seq<Seq<char>>, rv: Seq<(Seq<char>, int, Val)>)
    ensures
        fetch_rows(rows, fs, rv).len() == rows.len(),
    decreases fs.len(),
{
    if fs.len() > 0 {
        lemma_fetch_len(rows, fs.drop_last(), rv);
    }
}

/// START and LIMIT apply to the rows that GROUP and ORDER made: the output holds
/// no more than `limit` rows besides the EXPLAIN row, and they are those rows from
/// position `start` on, as FETCH leaves them.
pub proof fn lemma_page_bounds(
    out: Seq<Val>,
    s: Seq<Val>,
    rows: Seq<Val>,
    stm: Statement,
    limit: usize,
    start: usize,
    rv: Seq<(Seq<char>, int, Val)>,
    es: Seq<crate::iterator::Iterable>,
)
    requires
        output_through(out, s, rows, stm, Some(limit), Some(start), rv, es),
    ensures
        out.len() <= limit + if stm.explain { 1int } else { 0int },
        ({
            let from = if start < s.len() { start as int } else { s.len() as int };
            let to = if from + limit < s.len() { from + limit } else { s.len() as int };
            page(s, Some(start), Some(limit)) == s.subrange(from, to)
        }),
{
    let p = page(s, Some(start), Some(limit));
    lemma_fetch_len(p, match stm.fetch {
        Some(fs) => crate::iterator::names(fs@),
        None => Seq::empty(),
    }, rv);
    let from = if start < s.len() { start as int } else { s.len() as int };
    let to = if from + limit < s.len() { from + limit } else { s.len() as int };
    assert(p =~= s.subrange(from, to));
    assert(fetch_stage(p, stm, rv).len() == p.len());
}

/// Whether some bucket of `bs` has key `k`.
pub open spec fn has_key(bs: Seq<Bucket>, k: Seq<int>) -> bool {
    exists|i: int| 0 <= i < bs.len() && (#[trigger] bs[i]).0 == k
}

/// Whether some row of `rows` has key `k`.
pub open spec fn row_has_key(rows: Seq<Val>, paths: Seq<Seq<char>>, k: Seq<int>) -> bool {
    exists|j: int| 0 <= j < rows.len() && key_code(#[trigger] rows[j], paths) == k
}

proof fn lemma_bucket_keys(rows: Seq<Val>, paths: Seq<Seq<char>>, k: Seq<int>)
    ensures
        has_key(buckets(rows, paths), k) <==> row_has_key(rows, paths, k),
    decreases rows.len(),
{
    if rows.len() > 0 {
        let dl = rows.drop_last();
        let bs = buckets(dl, paths);
        let kl = key_code(rows.last(), paths);
        lemma_bucket_keys(dl, paths, k);
        crate::iterator::lemma_bucket_pos(bs, kl);
        let i = bucket_pos(bs, kl);
        let r = add_row(bs, kl, rows.last());
        if row_has_key(dl, paths, k) {
            let j = choose|j: int| 0 <= j < dl.len() && key_code(#[trigger] dl[j], paths) == k;
            assert(rows[j] == dl[j]);
        }
        if row_has_key(rows, paths, k) && !row_has_key(dl, paths, k) {
            let j = choose|j: int| 0 <= j < rows.len() && key_code(#[trigger] rows[j], paths) == k;
            if j < dl.len() {
                assert(rows[j] == dl[j]);
            }
            assert(k == kl);
        }
        if has_key(bs, k) {
            let q = choose|q: int| 0 <= q < bs.len() && (#[trigger] bs[q]).0 == k;
            if i < bs.len() && bs[i].0 == kl {
                assert(r[q].0 == k);
            } else if q < i {
                assert(r[q] == bs[q]);
            } else {
                assert(r[q + 1] == bs[q]);
            }
        }
        if i < bs.len() && bs[i].0 == kl {
            assert(r[i].0 == kl);
            if has_key(r, k) {
                let q = choose|q: int| 0 <= q < r.len() && (#[trigger] r[q]).0 == k;
                assert(bs[q].0 == k);
            }
        } else {
            assert(r[i].0 == kl);
            if has_key(r, k) {
                let q = choose|q: int| 0 <= q < r.len() && (#[trigger] r[q]).0 == k;
                if q < i {
                    assert(bs[q] == r[q]);
                } else if q > i {
                    assert(bs[q - 1] == r[q]);
                }
            }
        }
        if k == kl {
            assert(key_code(rows[rows.len() - 1], paths) == k);
        }
    }
}

proof fn lemma_increasing_unique(s: Seq<Bucket>, t: Seq<Bucket>)
    requires
        keys_increasing(s),
        keys_increasing(t),
        forall|k: Seq<int>| has_key(s, k) <==> has_key(t, k),
    ensures
        s.map_values(|b: Bucket| b.0) == t.map_values(|b: Bucket| b.0),
    decreases s.len() + t.len(),
{
    if s.len() == 0 || t.len() == 0 {
        if s.len() > 0 {
            assert(has_key(s, s[0].0));
        }
        if t.len() > 0 {
            assert(has_key(t, t[0].0));
        }
        assert(s.map_values(|b: Bucket| b.0) =~= t.map_values(|b: Bucket| b.0));
    } else {
        assert(has_key(s, s[0].0));
        assert(has_key(t, t[0].0));
        let i = choose|i: int| 0 <= i < t.len() && (#[trigger] t[i]).0 == s[0].0;
        let j = choose|j: int| 0 <= j < s.len() && (#[trigger] s[j]).0 == t[0].0;
        if i > 0 && j > 0 {
            assert(lex_lt(t[0].0, t[i].0));
            assert(lex_lt(s[0].0, s[j].0));
            lemma_lex_total(s[0].0, t[0].0);
        }
        if i == 0 {
        } else {
            assert(j == 0);
            assert(lex_lt(t[0].0, t[i].0));
        }
        assert(s[0].0 == t[0].0) by {
            if i > 0 {
                lemma_lex_total(t[0].0, t[0].0);
            }
        }
        let s1 = s.drop_first();
        let t1 = t.drop_first();
        assert forall|k: Seq<int>| has_key(s1, k) <==> has_key(t1, k) by {
            if has_key(s1, k) {
                let a = choose|a: int| 0 <= a < s1.len() && (#[trigger] s1[a]).0 == k;
                assert(s[a + 1].0 == k);
                assert(has_key(s, k));
                let c = choose|c: int| 0 <= c < t.len() && (#[trigger] t[c]).0 == k;
                assert(lex_lt(s[0].0, s[a + 1].0));
                if c == 0 {
                    lemma_lex_total(k, k);
                }
                assert(t1[c - 1].0 == k);
            }
            if has_key(t1, k) {
                let a = choose|a: int| 0 <= a < t1.len() && (#[trigger] t1[a]).0 == k;
                assert(t[a + 1].0 == k);
                assert(has_key(t, k));
                let c = choose|c: int| 0 <= c < s.len() && (#[trigger] s[c]).0 == k;
                assert(lex_lt(t[0].0, t[a + 1].0));
                if c == 0 {
                    lemma_lex_total(k, k);
                }
                assert(s1[c - 1].0 == k);
            }
        }
        assert(keys_increasing(s1)) by {
            assert forall|a: int, b: int| 0 <= a < b < s1.len() implies lex_lt(#[trigger] s1[a].0, #[trigger] s1[b].0) by {
                assert(s1[a] == s[a + 1] && s1[b] == s[b + 1]);
            }
        }
        assert(keys_increasing(t1)) by {
            assert forall|a: int, b: int| 0 <= a < b < t1.len() implies lex_lt(#[trigger] t1[a].0, #[trigger] t1[b].0) by {
                assert(t1[a] == t[a + 1] && t1[b] == t[b + 1]);
            }
        }
        lemma_increasing_unique(s1, t1);
        let ms = s.map_values(|b: Bucket| b.0);
        let mt = t.map_values(|b: Bucket| b.0);
        assert(ms.drop_first() =~= s1.map_values(|b: Bucket| b.0));
        assert(mt.drop_first() =~= t1.map_values(|b: Bucket| b.0));
        assert(ms =~= mt) by {
            assert(ms.len() == mt.len());
            assert forall|x: int| 0 <= x < ms.len() implies ms[x] == mt[x] by {
                if x > 0 {
                    assert(ms[x] == ms.drop_first()[x - 1]);
                    assert(mt[x] == mt.drop_first()[x - 1]);
                }
            }
        }
    }
}

/// GROUP is deterministic: the same rows, in whatever order they arrive, give
/// buckets with the same keys in the same, increasing, order.
pub proof fn lemma_group_order_deterministic(rows1: Seq<Val>, rows2: Seq<Val>, paths: Seq<Seq<char>>)
    requires
        rows1.to_multiset() == rows2.to_multiset(),
    ensures
        buckets(rows1, paths).map_values(|b: Bucket| b.0) == buckets(rows2, paths).map_values(|b: Bucket| b.0),
        keys_increasing(buckets(rows1, paths)),
{
    crate::iterator::lemma_buckets_increasing(rows1, paths);
    crate::iterator::lemma_buckets_increasing(rows2, paths);
    assert forall|k: Seq<int>| has_key(buckets(rows1, paths), k) <==> has_key(buckets(rows2, paths), k) by {
        lemma_bucket_keys(rows1, paths, k);
        lemma_bucket_keys(rows2, paths, k);
        if row_has_key(rows1, paths, k) {
            let j = choose|j: int| 0 <= j < rows1.len() && key_code(#[trigger] rows1[j], paths) == k;
            vstd::seq_lib::to_multiset_contains(rows1, rows1[j]);
            vstd::seq_lib::to_multiset_contains(rows2, rows1[j]);
            assert(rows1.contains(rows1[j]));
            let q = choose|q: int| 0 <= q < rows2.len() && rows2[q] == rows1[j];
            assert(key_code(rows2[q], paths) == k);
        }
        if row_has_key(rows2, paths, k) {
            let j = choose|j: int| 0 <= j < rows2.len() && key_code(#[trigger] rows2[j], paths) == k;
            vstd::seq_lib::to_multiset_contains(rows2, rows2[j]);
            vstd::seq_lib::to_multiset_contains(rows1, rows2[j]);
            assert(rows2.contains(rows2[j]));
            let q = choose|q: int| 0 <= q < rows1.len() && rows1[q] == rows2[j];
            assert(key_code(rows1[q], paths) == k);
        }
    }
    lemma_increasing_unique(buckets(rows1, paths), buckets(rows2, paths));
}

/// Whether `it` is as `Iterator::new` makes it, data sources aside.
pub open spec fn fresh(it: Iterator) -> bool {
    &&& it.results@.len() == 0
    &&& it.error is None
    &&& it.limit is None
    &&& it.start is None
}

/// What `output` gathers on a fresh iterator without LIMIT, GROUP or ORDER, when no
/// candidate fails: every value, in enumeration order, and no error.
pub proof fn lemma_output_gathers_in_order(it: Iterator, outs: Seq<Result<Value, Error>>, stm: Statement)
    requires
        fresh(it),
        stm.limit is None,
        forall|i: int| 0 <= i < outs.len() ==> (#[trigger] outs[i]) is Ok || ignored(outs[i]),
    ensures
        gathered(it, outs, stm).results == oks(outs),
        gathered(it, outs, stm).error is None,
{
    let a = Acc { cancelled: false, error: it.error, results: it.results@ };
    lemma_results_in_order(a, outs, stm, None, crate::iterator::resolved_start(stm, it.start));
    assert(it.results@ + oks(outs) =~= oks(outs));
}

/// What `output` gathers on a fresh iterator when every candidate is left out:
/// no rows and no error.
pub proof fn lemma_output_all_ignored(it: Iterator, outs: Seq<Result<Value, Error>>, stm: Statement)
    requires
        fresh(it),
        forall|i: int| 0 <= i < outs.len() ==> ignored(#[trigger] outs[i]),
    ensures
        gathered(it, outs, stm).results.len() == 0,
        gathered(it, outs, stm).error is None,
{
    let a = Acc { cancelled: false, error: it.error, results: it.results@ };
    lemma_ignored_leave_nothing(
        a,
        outs,
        stm,
        crate::iterator::resolved_limit(stm, it.limit),
        crate::iterator::resolved_start(stm, it.start),
    );
}

/// What `output` gathers on an iterator without an earlier error when one
/// candidate fails and all others are left out: that failure, which `output`
/// then returns.
pub proof fn lemma_output_single_error(it: Iterator, outs: Seq<Result<Value, Error>>, k: int, stm: Statement)
    requires
        it.error is None,
        0 <= k < outs.len(),
        outs[k] is Err,
        !ignored(outs[k]),
        forall|i: int| 0 <= i < outs.len() && i != k ==> ignored(#[trigger] outs[i]),
    ensures
        gathered(it, outs, stm).error == Some(outs[k]->Err_0),
{
    let a = Acc { cancelled: false, error: it.error, results: it.results@ };
    lemma_single_error(
        a,
        outs,
        k,
        stm,
        crate::iterator::resolved_limit(stm, it.limit),
        crate::iterator::resolved_start(stm, it.start),
    );
}

} // verus!
