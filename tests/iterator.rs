use surreal_iter::iterator::{
    Error, Expr, Field, Iterable, Iterator as Query, Operable, Order, Plan, Statement, Workable,
    MAX_COMPUTATION_DEPTH,
};
use surreal_iter::value::{Thing, Value};

fn stm() -> Statement {
    Statement {
        expr: None,
        split: None,
        group: None,
        order: None,
        limit: None,
        start: None,
        fetch: None,
        explain: false,
        parallel: false,
    }
}

fn s(x: &str) -> String {
    x.to_string()
}

fn num(n: i64) -> Value {
    Value::Number(n)
}

fn obj(fields: Vec<(&str, Value)>) -> Value {
    Value::Object(fields.into_iter().map(|(k, v)| (k.to_string(), v)).collect())
}

fn thing(tb: &str, id: i64) -> Thing {
    Thing { tb: tb.to_string(), id }
}

fn person(n: i64) -> Value {
    obj(vec![("id", num(n)), ("name", Value::Strand(format!("p{}", n)))])
}

fn five() -> Vec<Result<Value, Error>> {
    (1..=5).map(|n| Ok(person(n))).collect()
}

fn rows(v: Value) -> Vec<Value> {
    match v {
        Value::Array(xs) => xs,
        other => panic!("not an array: {:?}", other),
    }
}

#[test]
fn table_scan_returns_all_in_order() {
    let mut it = Query::new();
    it.ingest(Iterable::Table(s("person")));
    let out = it.output(&stm(), 0, five(), &vec![]).unwrap();
    assert_eq!(rows(out), (1..=5).map(person).collect::<Vec<_>>());
    assert!(it.entries.is_empty());
}

#[test]
fn limit_and_start_page_the_scan() {
    let mut it = Query::new();
    it.ingest(Iterable::Table(s("person")));
    let mut q = stm();
    q.limit = Some(2);
    q.start = Some(1);
    let out = it.output(&q, 0, five(), &vec![]).unwrap();
    assert_eq!(rows(out), vec![person(2), person(3)]);
}

#[test]
fn limit_stops_iteration_early() {
    let mut it = Query::new();
    it.ingest(Iterable::Table(s("person")));
    let mut q = stm();
    q.limit = Some(2);
    let out = it.output(&q, 0, five(), &vec![]).unwrap();
    assert_eq!(rows(out), vec![person(1), person(2)]);
    assert!(it.cancelled);
}

#[test]
fn start_past_the_end_gives_nothing() {
    let mut it = Query::new();
    let mut q = stm();
    q.start = Some(10);
    let out = it.output(&q, 0, five(), &vec![]).unwrap();
    assert_eq!(rows(out), vec![]);
}

#[test]
fn limit_zero_gives_nothing() {
    let mut it = Query::new();
    let mut q = stm();
    q.limit = Some(0);
    let out = it.output(&q, 0, five(), &vec![]).unwrap();
    assert_eq!(rows(out), vec![]);
}

#[test]
fn group_counts_rows_per_key() {
    let input = vec![
        Ok(obj(vec![("k", num(2)), ("v", num(1))])),
        Ok(obj(vec![("k", num(1)), ("v", num(2))])),
        Ok(obj(vec![("k", num(2)), ("v", num(3))])),
        Ok(obj(vec![("k", num(1)), ("v", num(4))])),
    ];
    let mut it = Query::new();
    let mut q = stm();
    q.expr = Some(vec![
        Field::Single { expr: Expr::Idiom(s("k")), alias: None },
        Field::Single { expr: Expr::Count, alias: None },
    ]);
    q.group = Some(vec![s("k")]);
    let out = it.output(&q, 0, input, &vec![]).unwrap();
    assert_eq!(
        rows(out),
        vec![obj(vec![("k", num(1)), ("count", num(2))]), obj(vec![("k", num(2)), ("count", num(2))])]
    );
}

#[test]
fn group_is_independent_of_input_order() {
    let a = vec![
        obj(vec![("k", Value::Strand(s("b")))]),
        obj(vec![("k", Value::Strand(s("a")))]),
        obj(vec![("k", Value::Strand(s("c")))]),
        obj(vec![("k", Value::Strand(s("a")))]),
    ];
    let mut q = stm();
    q.expr = Some(vec![
        Field::Single { expr: Expr::Idiom(s("k")), alias: None },
        Field::Single { expr: Expr::Count, alias: Some(s("n")) },
    ]);
    q.group = Some(vec![s("k")]);
    let mut it1 = Query::new();
    let out1 = it1.output(&q, 0, a.iter().map(|v| Ok(v.copy())).collect(), &vec![]).unwrap();
    let mut it2 = Query::new();
    let out2 = it2.output(&q, 0, a.iter().rev().map(|v| Ok(v.copy())).collect(), &vec![]).unwrap();
    assert_eq!(out1, out2);
    assert_eq!(
        rows(out1),
        vec![
            obj(vec![("k", Value::Strand(s("a"))), ("n", num(2))]),
            obj(vec![("k", Value::Strand(s("b"))), ("n", num(1))]),
            obj(vec![("k", Value::Strand(s("c"))), ("n", num(1))]),
        ]
    );
}

#[test]
fn group_then_limit_applies_to_buckets() {
    let input: Vec<Result<Value, Error>> =
        (0..6).map(|n| Ok(obj(vec![("k", num(n % 3))]))).collect();
    let mut q = stm();
    q.expr = Some(vec![Field::Single { expr: Expr::Idiom(s("k")), alias: None }]);
    q.group = Some(vec![s("k")]);
    q.start = Some(1);
    q.limit = Some(1);
    let mut it = Query::new();
    let out = it.output(&q, 0, input, &vec![]).unwrap();
    assert_eq!(rows(out), vec![obj(vec![("k", num(1))])]);
}

#[test]
fn split_makes_one_row_per_element() {
    let row = obj(vec![
        ("id", num(1)),
        ("tags", Value::Array(vec![Value::Strand(s("a")), Value::Strand(s("b")), Value::Strand(s("c"))])),
    ]);
    let mut q = stm();
    q.split = Some(vec![s("tags")]);
    let mut it = Query::new();
    let out = it.output(&q, 0, vec![Ok(row)], &vec![]).unwrap();
    assert_eq!(
        rows(out),
        vec![
            obj(vec![("id", num(1)), ("tags", Value::Strand(s("a")))]),
            obj(vec![("id", num(1)), ("tags", Value::Strand(s("b")))]),
            obj(vec![("id", num(1)), ("tags", Value::Strand(s("c")))]),
        ]
    );
}

#[test]
fn split_on_scalar_keeps_the_row() {
    let row = obj(vec![("id", num(1)), ("tags", num(7))]);
    let mut q = stm();
    q.split = Some(vec![s("tags")]);
    let mut it = Query::new();
    let out = it.output(&q, 0, vec![Ok(row.copy())], &vec![]).unwrap();
    assert_eq!(rows(out), vec![row]);
}

#[test]
fn split_on_two_fields_compounds() {
    let row = obj(vec![
        ("a", Value::Array(vec![num(1), num(2)])),
        ("b", Value::Array(vec![num(3), num(4)])),
    ]);
    let mut q = stm();
    q.split = Some(vec![s("a"), s("b")]);
    let mut it = Query::new();
    let out = rows(it.output(&q, 0, vec![Ok(row)], &vec![]).unwrap());
    assert_eq!(out.len(), 4);
    assert_eq!(out[1], obj(vec![("a", num(1)), ("b", num(4))]));
    assert_eq!(out[2], obj(vec![("a", num(2)), ("b", num(3))]));
}

#[test]
fn order_sorts_ascending_and_descending() {
    let input = || -> Vec<Result<Value, Error>> {
        vec![3, 1, 2].into_iter().map(|n| Ok(obj(vec![("n", num(n))]))).collect()
    };
    let mut q = stm();
    q.order = Some(vec![Order { field: s("n"), random: false, direction: true }]);
    let mut it = Query::new();
    let out = rows(it.output(&q, 0, input(), &vec![]).unwrap());
    assert_eq!(out, vec![1, 2, 3].into_iter().map(|n| obj(vec![("n", num(n))])).collect::<Vec<_>>());
    q.order = Some(vec![Order { field: s("n"), random: false, direction: false }]);
    let mut it = Query::new();
    let out = rows(it.output(&q, 0, input(), &vec![]).unwrap());
    assert_eq!(out, vec![3, 2, 1].into_iter().map(|n| obj(vec![("n", num(n))])).collect::<Vec<_>>());
}

#[test]
fn order_ties_fall_through_to_next_clause() {
    let input = vec![
        Ok(obj(vec![("a", num(1)), ("b", num(1))])),
        Ok(obj(vec![("a", num(0)), ("b", num(5))])),
        Ok(obj(vec![("a", num(1)), ("b", num(2))])),
    ];
    let mut q = stm();
    q.order = Some(vec![
        Order { field: s("a"), random: false, direction: true },
        Order { field: s("b"), random: false, direction: false },
    ]);
    let mut it = Query::new();
    let out = rows(it.output(&q, 0, input, &vec![]).unwrap());
    assert_eq!(
        out,
        vec![
            obj(vec![("a", num(0)), ("b", num(5))]),
            obj(vec![("a", num(1)), ("b", num(2))]),
            obj(vec![("a", num(1)), ("b", num(1))]),
        ]
    );
}

#[test]
fn order_random_keeps_the_rows() {
    let input: Vec<Result<Value, Error>> = (0..20).map(|n| Ok(num(n))).collect();
    let mut q = stm();
    q.order = Some(vec![Order { field: s("x"), random: true, direction: true }]);
    let mut it = Query::new();
    let mut out: Vec<i64> = rows(it.output(&q, 0, input, &vec![]).unwrap())
        .into_iter()
        .map(|v| match v {
            Value::Number(n) => n,
            _ => panic!("not a number"),
        })
        .collect();
    out.sort();
    assert_eq!(out, (0..20).collect::<Vec<_>>());
}

#[test]
fn order_puts_strings_after_numbers() {
    let input = vec![Ok(obj(vec![("n", Value::Strand(s("x")))])), Ok(obj(vec![("n", num(9))]))];
    let mut q = stm();
    q.order = Some(vec![Order { field: s("n"), random: false, direction: true }]);
    let mut it = Query::new();
    let out = rows(it.output(&q, 0, input, &vec![]).unwrap());
    assert_eq!(out[0], obj(vec![("n", num(9))]));
}

#[test]
fn ignored_candidates_give_an_empty_result() {
    let input = vec![Err(Error::Ignore), Err(Error::Ignore), Err(Error::Ignore)];
    let mut it = Query::new();
    let out = it.output(&stm(), 0, input, &vec![]).unwrap();
    assert_eq!(rows(out), vec![]);
}

#[test]
fn single_error_is_returned() {
    let input = vec![Err(Error::Ignore), Err(Error::Thrown(s("boom"))), Err(Error::Ignore)];
    let mut it = Query::new();
    assert_eq!(it.output(&stm(), 0, input, &vec![]), Err(Error::Thrown(s("boom"))));
}

#[test]
fn first_error_wins() {
    let input = vec![Ok(num(1)), Err(Error::Thrown(s("first"))), Err(Error::Thrown(s("second")))];
    let mut it = Query::new();
    assert_eq!(it.output(&stm(), 0, input, &vec![]), Err(Error::Thrown(s("first"))));
}

#[test]
fn negative_limit_is_rejected() {
    let mut q = stm();
    q.limit = Some(-1);
    let mut it = Query::new();
    assert_eq!(it.output(&q, 0, five(), &vec![]), Err(Error::InvalidLimit(-1)));
}

#[test]
fn negative_start_is_rejected() {
    let mut q = stm();
    q.start = Some(-3);
    let mut it = Query::new();
    assert_eq!(it.output(&q, 0, five(), &vec![]), Err(Error::InvalidStart(-3)));
}

#[test]
fn deep_nesting_is_rejected() {
    let mut it = Query::new();
    assert_eq!(
        it.output(&stm(), MAX_COMPUTATION_DEPTH - 3, five(), &vec![]),
        Err(Error::ComputationDepthExceeded)
    );
    let mut it = Query::new();
    assert!(it.output(&stm(), MAX_COMPUTATION_DEPTH - 4, five(), &vec![]).is_ok());
}

#[test]
fn fetch_resolves_references() {
    let input = vec![
        Ok(obj(vec![("author", Value::Thing(thing("user", 1)))])),
        Ok(obj(vec![("author", Value::Thing(thing("user", 9)))])),
    ];
    let records = vec![(thing("user", 1), obj(vec![("name", Value::Strand(s("Tobie")))]))];
    let mut q = stm();
    q.fetch = Some(vec![s("author")]);
    let mut it = Query::new();
    let out = rows(it.output(&q, 0, input, &records).unwrap());
    assert_eq!(
        out,
        vec![
            obj(vec![("author", obj(vec![("name", Value::Strand(s("Tobie")))]))]),
            obj(vec![("author", Value::Thing(thing("user", 9)))]),
        ]
    );
}

#[test]
fn explain_row_comes_last() {
    let mut it = Query::new();
    it.ingest(Iterable::Table(s("person")));
    it.ingest(Iterable::Thing(thing("person", 7)));
    it.ingest(Iterable::Index(s("person"), Plan { index: s("idx"), explanation: Value::Strand(s("plan")) }));
    let mut q = stm();
    q.explain = true;
    let out = rows(it.output(&q, 0, vec![Ok(num(1))], &vec![]).unwrap());
    assert_eq!(out.len(), 2);
    assert_eq!(out[0], num(1));
    assert_eq!(
        out[1],
        obj(vec![(
            "explain",
            Value::Array(vec![
                obj(vec![
                    ("operation", Value::Strand(s("Iterate Table"))),
                    ("detail", obj(vec![("table", Value::Strand(s("person")))])),
                ]),
                obj(vec![
                    ("operation", Value::Strand(s("Iterate Thing"))),
                    ("detail", obj(vec![("thing", Value::Thing(thing("person", 7)))])),
                ]),
                obj(vec![
                    ("operation", Value::Strand(s("Iterate Index"))),
                    (
                        "detail",
                        obj(vec![("table", Value::Strand(s("person"))), ("plan", Value::Strand(s("plan")))]),
                    ),
                ]),
            ])
        )])
    );
}

#[test]
fn explain_relatable_names_three_records() {
    let mut it = Query::new();
    it.ingest(Iterable::Relatable(thing("a", 1), thing("e", 2), thing("b", 3)));
    let mut q = stm();
    q.explain = true;
    let out = rows(it.output(&q, 0, vec![], &vec![]).unwrap());
    assert_eq!(
        out,
        vec![obj(vec![(
            "explain",
            Value::Array(vec![obj(vec![
                ("operation", Value::Strand(s("Iterate Relatable"))),
                (
                    "detail",
                    obj(vec![
                        ("thing-1", Value::Thing(thing("a", 1))),
                        ("thing-2", Value::Thing(thing("e", 2))),
                        ("thing-3", Value::Thing(thing("b", 3))),
                    ])
                ),
            ])])
        )])]
    );
}

#[test]
fn process_after_stop_is_ignored() {
    let mut q = stm();
    q.limit = Some(1);
    let mut it = Query::new();
    it.setup_limit(&q).unwrap();
    it.process(&q, Ok(num(1)));
    assert!(it.cancelled);
    it.process(&q, Ok(num(2)));
    it.process(&q, Err(Error::Thrown(s("late"))));
    assert_eq!(it.results, vec![num(1)]);
    assert_eq!(it.error, None);
}

#[test]
fn result_keeps_collecting_with_order() {
    let mut q = stm();
    q.limit = Some(1);
    q.order = Some(vec![Order { field: s("n"), random: false, direction: true }]);
    let mut it = Query::new();
    it.setup_limit(&q).unwrap();
    it.result(Ok(num(1)), &q);
    it.result(Ok(num(2)), &q);
    assert!(!it.cancelled);
    assert_eq!(it.results.len(), 2);
}

#[test]
fn value_set_and_pick() {
    let mut v = obj(vec![("a", num(1))]);
    v.set(&s("b"), num(2));
    v.set(&s("a"), num(3));
    assert_eq!(v, obj(vec![("a", num(3)), ("b", num(2))]));
    assert_eq!(v.pick(&s("b")), num(2));
    assert_eq!(v.pick(&s("zz")), Value::Absent);
    let mut n = Value::Null;
    n.set(&s("x"), num(1));
    assert_eq!(n, obj(vec![("x", num(1))]));
}

#[test]
fn operable_routes_to_workable() {
    let (v, w) = Operable::Value(num(1)).into_work();
    assert_eq!(v, num(1));
    assert!(matches!(w, Workable::Normal));
    let (v, w) = Operable::Mergeable(num(2), num(3)).into_work();
    assert_eq!(v, num(2));
    assert!(matches!(w, Workable::Insert(Value::Number(3))));
    let (v, w) = Operable::Relatable(thing("a", 1), num(4), thing("b", 2)).into_work();
    assert_eq!(v, num(4));
    match w {
        Workable::Relate(f, t) => {
            assert_eq!(f, thing("a", 1));
            assert_eq!(t, thing("b", 2));
        }
        _ => panic!("not a relation"),
    }
}

#[test]
fn group_collects_values_of_each_bucket() {
    let input = vec![
        Ok(obj(vec![("k", num(1)), ("v", num(10))])),
        Ok(obj(vec![("k", num(2)), ("v", num(20))])),
        Ok(obj(vec![("k", num(1)), ("v", num(30))])),
    ];
    let mut q = stm();
    q.expr = Some(vec![
        Field::All,
        Field::Single { expr: Expr::Idiom(s("k")), alias: None },
        Field::Single { expr: Expr::Collect(s("v")), alias: Some(s("vs")) },
    ]);
    q.group = Some(vec![s("k")]);
    let mut it = Query::new();
    let out = rows(it.output(&q, 0, input, &vec![]).unwrap());
    assert_eq!(
        out,
        vec![
            obj(vec![("k", num(1)), ("vs", Value::Array(vec![num(10), num(30)]))]),
            obj(vec![("k", num(2)), ("vs", Value::Array(vec![num(20)]))]),
        ]
    );
}

#[test]
fn result_after_error_adds_no_rows() {
    let q = stm();
    let mut it = Query::new();
    it.result(Ok(num(1)), &q);
    it.result(Err(Error::Thrown(s("first"))), &q);
    it.result(Ok(num(2)), &q);
    it.result(Err(Error::Thrown(s("second"))), &q);
    assert_eq!(it.results, vec![num(1)]);
    assert_eq!(it.error, Some(Error::Thrown(s("first"))));
    assert!(it.cancelled);
}

#[test]
fn order_keeps_fixed_clauses_before_random_one() {
    let input: Vec<Result<Value, Error>> = vec![3, 1, 2, 1, 3, 2]
        .into_iter()
        .enumerate()
        .map(|(i, n)| Ok(obj(vec![("a", num(n)), ("i", num(i as i64))])))
        .collect();
    let mut q = stm();
    q.order = Some(vec![
        Order { field: s("a"), random: false, direction: true },
        Order { field: s("i"), random: true, direction: true },
    ]);
    let mut it = Query::new();
    let out = rows(it.output(&q, 0, input, &vec![]).unwrap());
    let keys: Vec<Value> = out.iter().map(|r| r.pick(&s("a"))).collect();
    assert_eq!(keys, vec![num(1), num(1), num(2), num(2), num(3), num(3)]);
}
