use rspc::error::{Error, ExecError, ExportError};
use rspc::export::{default_config, generate_procedures_ts, render_document, ProcedureText};
use rspc::legacy::{settle_stream, settle_value, ExecKind, Handler, Outcome, Router};
use rspc::path::get_flattened_name;
use rspc::router::{Procedure2, ProcedureKind, Router2, Setup};
use specta::datatype::{DataType, PrimitiveType};
use specta::internal::construct;
use specta::{Generics, Type, TypeCollection};

#[derive(Clone, Copy, Debug, PartialEq)]
enum Op {
    Echo,
    Create,
    Pings,
    Unit,
}

impl Handler<(), String, Vec<String>> for Op {
    fn answers(
        &self,
        _ctx: (),
        _input: String,
        _o: Result<Outcome<String, Vec<String>>, ExecError>,
    ) -> bool {
        true
    }

    fn call(&self, _ctx: (), input: String) -> Result<Outcome<String, Vec<String>>, ExecError> {
        match self {
            Op::Echo => Ok(Outcome::Value(input)),
            Op::Create => Ok(Outcome::Value("true".to_string())),
            Op::Pings => Ok(Outcome::Stream(vec!["ping".to_string(), "ping".to_string()])),
            Op::Unit => Err(ExecError::Resolver("no".to_string())),
        }
    }
}

struct Record(u32);

impl Setup<Vec<u32>> for Record {
    fn ran(self, before: Vec<u32>, after: Vec<u32>) -> bool {
        after.len() == before.len() + 1 && after[before.len()] == self.0
    }

    fn run(self, state: &mut Vec<u32>) {
        state.push(self.0);
    }
}

struct Nothing;

impl Setup<()> for Nothing {
    fn ran(self, _before: (), _after: ()) -> bool {
        true
    }

    fn run(self, _state: &mut ()) {}
}

fn unit_type() -> DataType {
    <() as Type>::inline(&mut TypeCollection::default(), Generics::Definition)
}

fn string_type() -> DataType {
    DataType::Primitive(PrimitiveType::String)
}

fn prim(p: PrimitiveType) -> DataType {
    DataType::Primitive(p)
}

fn create_args() -> DataType {
    <(i32, String) as Type>::inline(&mut TypeCollection::default(), Generics::Definition)
}

fn proc(kind: ProcedureKind, input: DataType, result: DataType, handler: Op) -> Procedure2<Op> {
    Procedure2 { kind, input, result, types: TypeCollection::default(), handler }
}

fn unit_query() -> Procedure2<Op> {
    proc(ProcedureKind::Query, unit_type(), unit_type(), Op::Unit)
}

fn keys<S>(built: &Router<Op>) -> Vec<String> {
    built.procedures().iter().map(|p| p.key.clone()).collect()
}

fn built(r: Router2<Op, Nothing>) -> Router<Op> {
    match r.build::<()>() {
        Ok((b, ())) => b,
        Err(e) => panic!("build failed: {:?}", e),
    }
}

#[test]
fn errors() {
    let router = <Router2<Op, Nothing>>::new()
        .procedure("abc".to_string(), unit_query())
        .procedure("abc".to_string(), unit_query());

    assert_eq!(
        router.build::<()>().err().unwrap(),
        vec![Error::DuplicateProcedures(vec!["abc".into()])]
    );

    let router = <Router2<Op, Nothing>>::new()
        .procedure("abc".to_string(), unit_query())
        .merge(<Router2<Op, Nothing>>::new().procedure("abc".to_string(), unit_query()));

    assert_eq!(
        router.build::<()>().err().unwrap(),
        vec![Error::DuplicateProcedures(vec!["abc".into()])]
    );

    let router = <Router2<Op, Nothing>>::new()
        .nest(
            "abc".to_string(),
            <Router2<Op, Nothing>>::new().procedure("kjl".to_string(), unit_query()),
        )
        .nest(
            "abc".to_string(),
            <Router2<Op, Nothing>>::new().procedure("def".to_string(), unit_query()),
        );

    assert_eq!(
        router.build::<()>().err().unwrap(),
        vec![Error::DuplicateProcedures(vec!["abc".into()])]
    );
}

#[test]
fn merge_disjoint_keeps_both() {
    let a = <Router2<Op, Nothing>>::new()
        .procedure("a".to_string(), unit_query())
        .procedure("b".to_string(), unit_query());
    let b = <Router2<Op, Nothing>>::new().procedure("c".to_string(), unit_query());
    let r = built(a.merge(b));
    assert_eq!(keys::<()>(&r), vec!["a", "b", "c"]);
}

#[test]
fn merge_overlap_reports_each_shared_path() {
    let a = <Router2<Op, Nothing>>::new()
        .procedure("a".to_string(), unit_query())
        .procedure("b".to_string(), unit_query())
        .procedure("c".to_string(), unit_query());
    let b = <Router2<Op, Nothing>>::new()
        .procedure("c".to_string(), unit_query())
        .procedure("x".to_string(), unit_query())
        .procedure("a".to_string(), unit_query());
    assert_eq!(
        a.merge(b).build::<()>().err().unwrap(),
        vec![
            Error::DuplicateProcedures(vec!["a".into()]),
            Error::DuplicateProcedures(vec!["c".into()]),
        ]
    );
}

#[test]
fn nest_prefixes_paths() {
    let inner = <Router2<Op, Nothing>>::new()
        .procedure("x".to_string(), unit_query())
        .nest(
            "deep".to_string(),
            <Router2<Op, Nothing>>::new().procedure("y".to_string(), unit_query()),
        );
    let r = built(<Router2<Op, Nothing>>::new().nest("outer".to_string(), inner));
    assert_eq!(keys::<()>(&r), vec!["outer.deep.y", "outer.x"]);
    let paths: Vec<Vec<String>> = r.procedures().iter().map(|p| p.path.clone()).collect();
    assert_eq!(paths, vec![vec!["outer", "deep", "y"], vec!["outer", "x"]]);
}

#[test]
fn nest_twice_under_empty_first_succeeds() {
    let r = <Router2<Op, Nothing>>::new()
        .nest("v".to_string(), <Router2<Op, Nothing>>::new())
        .nest(
            "v".to_string(),
            <Router2<Op, Nothing>>::new().procedure("a".to_string(), unit_query()),
        );
    assert_eq!(keys::<()>(&built(r)), vec!["v.a"]);
}

#[test]
fn nest_keeps_inner_errors_prefixed() {
    let inner = <Router2<Op, Nothing>>::new()
        .procedure("a".to_string(), unit_query())
        .procedure("a".to_string(), unit_query());
    let r = <Router2<Op, Nothing>>::new().nest("p".to_string(), inner);
    assert_eq!(
        r.build::<()>().err().unwrap(),
        vec![Error::DuplicateProcedures(vec!["p".into(), "a".into()])]
    );
}

#[test]
fn procedure_collides_with_nested_prefix() {
    let r = <Router2<Op, Nothing>>::new()
        .nest(
            "users".to_string(),
            <Router2<Op, Nothing>>::new().procedure("get".to_string(), unit_query()),
        )
        .procedure("users".to_string(), unit_query());
    assert_eq!(
        r.build::<()>().err().unwrap(),
        vec![Error::DuplicateProcedures(vec!["users".into()])]
    );
}

#[test]
fn setup_runs_in_order() {
    let inner = <Router2<Op, Record>>::new().setup(Record(3));
    let r = <Router2<Op, Record>>::new()
        .setup(Record(1))
        .setup(Record(2))
        .nest("n".to_string(), inner);
    match r.build_with_state(vec![0]) {
        Ok((_, state)) => assert_eq!(state, vec![0, 1, 2, 3]),
        Err(e) => panic!("build failed: {:?}", e),
    }
}

#[test]
fn flattened_names() {
    assert_eq!(get_flattened_name(&vec!["a".to_string()]), "a");
    assert_eq!(
        get_flattened_name(&vec!["v1".to_string(), "users".to_string(), "get".to_string()]),
        "v1.users.get"
    );
}

#[test]
fn empty_registry_finds_nothing() {
    let r = built(<Router2<Op, Nothing>>::new());
    for key in ["", "a", "a.b"] {
        assert_eq!(
            r.exec((), ExecKind::Query, key.to_string(), "x".to_string()),
            Err(ExecError::OperationNotFound(key.to_string()))
        );
        assert_eq!(
            r.exec((), ExecKind::Mutation, key.to_string(), "x".to_string()),
            Err(ExecError::OperationNotFound(key.to_string()))
        );
        assert_eq!(
            r.exec_subscription((), key.to_string(), "x".to_string()),
            Err(ExecError::OperationNotFound(key.to_string()))
        );
    }
}

fn mixed() -> Router<Op> {
    built(
        <Router2<Op, Nothing>>::new()
            .procedure("echo".to_string(), proc(ProcedureKind::Query, string_type(), string_type(), Op::Echo))
            .procedure("pings".to_string(), proc(ProcedureKind::Subscription, unit_type(), string_type(), Op::Pings))
            .procedure("fail".to_string(), proc(ProcedureKind::Mutation, unit_type(), unit_type(), Op::Unit)),
    )
}

#[test]
fn kind_mismatch_is_unsupported() {
    let r = mixed();
    // A subscription exists under "pings", but not as a query.
    assert_eq!(
        r.exec((), ExecKind::Query, "pings".to_string(), "x".to_string()),
        Err(ExecError::OperationNotFound("pings".to_string()))
    );
    // A query whose handler answers with a stream is refused by `exec`.
    assert_eq!(
        settle_value::<String, Vec<String>>("pings".to_string(), Ok(Outcome::Stream(vec![]))),
        Err(ExecError::UnsupportedMethod("pings".to_string()))
    );
    // A subscription whose handler answers with a value is refused.
    assert_eq!(
        settle_stream::<String, Vec<String>>("echo".to_string(), Ok(Outcome::Value("v".to_string()))),
        Err(ExecError::UnsupportedMethod("echo".to_string()))
    );
    assert_eq!(
        r.exec_subscription((), "pings".to_string(), "x".to_string()),
        Ok(vec!["ping".to_string(), "ping".to_string()])
    );
}

#[test]
fn handler_error_passes_through() {
    let r = mixed();
    assert_eq!(
        r.exec((), ExecKind::Mutation, "fail".to_string(), "x".to_string()),
        Err(ExecError::Resolver("no".to_string()))
    );
}

#[test]
fn exec_query_value() {
    let r = mixed();
    assert_eq!(r.exec((), ExecKind::Query, "echo".to_string(), "hi".to_string()), Ok("hi".to_string()));
}

#[test]
fn union_of_no_procedure_is_never() {
    assert_eq!(generate_procedures_ts(&vec![]), "never");
}

#[test]
fn union_records() {
    let ps = vec![
        ProcedureText { key: "a".to_string(), input: None, result: "string".to_string() },
        ProcedureText { key: "b.c".to_string(), input: Some("number".to_string()), result: "null".to_string() },
    ];
    assert_eq!(
        generate_procedures_ts(&ps),
        "\n        { key: \"a\", input: never, result: string } | \n        { key: \"b.c\", input: number, result: null }"
    );
}

#[test]
fn document_layout() {
    let doc = render_document(
        &Some("// header".to_string()),
        &"Q".to_string(),
        &"never".to_string(),
        &"S".to_string(),
        &vec!["export type A = string".to_string()],
    );
    assert_eq!(
        doc,
        "// header\n// This file was generated by [rspc](https://github.com/specta-rs/rspc). Do not edit this file manually.\n\nexport type Procedures = {\n    queries: Q,\n    mutations: never,\n    subscriptions: S\n};\n\nexport type A = string\n"
    );
}

#[test]
fn export_without_argument_and_without_mutations() {
    let r = built(
        <Router2<Op, Nothing>>::new()
            .procedure("version".to_string(), proc(ProcedureKind::Query, unit_type(), string_type(), Op::Unit)),
    );
    let doc = r.export_ts(&default_config(), &None).unwrap();
    assert!(doc.contains("{ key: \"version\", input: never, result: string }"));
    assert!(doc.contains("mutations: never,"));
    assert!(doc.contains("subscriptions: never\n"));
    assert!(!doc.contains("input: {}"));
}

#[test]
fn export_twice_is_identical() {
    let r = mixed();
    let a = r.export_ts(&default_config(), &Some("// h".to_string())).unwrap();
    let b = r.export_ts(&default_config(), &Some("// h".to_string())).unwrap();
    assert_eq!(a, b);
    assert!(a.starts_with("// h\n"));
}

#[test]
fn export_refuses_wide_integers() {
    let r = built(
        <Router2<Op, Nothing>>::new()
            .procedure("big".to_string(), proc(ProcedureKind::Query, unit_type(), prim(PrimitiveType::i64), Op::Unit)),
    );
    match r.export_ts(&default_config(), &None) {
        Err(ExportError::ExportFailure(reason)) => assert!(reason.contains("bigint")),
        Ok(doc) => panic!("exported {doc}"),
    }
}

#[test]
fn end_to_end_echo() {
    let api = <Router2<Op, Nothing>>::new()
        .procedure("echo".to_string(), proc(ProcedureKind::Query, string_type(), string_type(), Op::Echo))
        .procedure(
            "create".to_string(),
            proc(ProcedureKind::Mutation, create_args(), prim(PrimitiveType::bool), Op::Create),
        );
    let r = built(<Router2<Op, Nothing>>::new().nest("v1".to_string(), api));
    assert_eq!(
        r.exec((), ExecKind::Query, "v1.echo".to_string(), "hi".to_string()),
        Ok("hi".to_string())
    );
    let doc = r.export_ts(&default_config(), &None).unwrap();
    assert!(doc.contains("queries: \n        { key: \"v1.echo\", input: string, result: string },"));
    assert!(doc.contains("{ key: \"v1.create\", input: [number, string], result: boolean }"));
}

#[test]
fn export_declares_each_named_type_once() {
    let mut types = TypeCollection::default();
    let pair = construct::tuple(vec![string_type(), prim(PrimitiveType::i32)]).to_anonymous();
    types.insert(
        construct::sid("Pair", "tests::Pair"),
        construct::named_data_type(
            "Pair".into(),
            "".into(),
            None,
            construct::sid("Pair", "tests::Pair"),
            construct::impl_location("tests"),
            pair,
        ),
    );
    let with_types = Procedure2 {
        kind: ProcedureKind::Query,
        input: unit_type(),
        result: string_type(),
        types: types.clone(),
        handler: Op::Unit,
    };
    let also = Procedure2 {
        kind: ProcedureKind::Mutation,
        input: string_type(),
        result: string_type(),
        types,
        handler: Op::Echo,
    };
    let r = built(
        <Router2<Op, Nothing>>::new()
            .procedure("a".to_string(), with_types)
            .procedure("b".to_string(), also),
    );
    let doc = r.export_ts(&default_config(), &None).unwrap();
    assert_eq!(doc.matches("export type Pair").count(), 1);
    assert!(doc.contains("[string, number]"));
}

#[test]
fn parts_by_kind() {
    let r = mixed();
    let names = |ps: Vec<&rspc::legacy::Procedure<Op>>| -> Vec<String> {
        ps.iter().map(|p| p.key.clone()).collect()
    };
    assert_eq!(names(r.queries()), vec!["echo"]);
    assert_eq!(names(r.mutations()), vec!["fail"]);
    assert_eq!(names(r.subscriptions()), vec!["pings"]);
    assert_eq!(r.queries()[0].handler, Op::Echo);
    let (q, m, s, _) = r.into_parts();
    assert_eq!(q.len() + m.len() + s.len(), 3);
    assert_eq!(s[0].key, "pings");
}

#[test]
fn merge_overlap_keeps_other_errors() {
    let a = <Router2<Op, Nothing>>::new().procedure("a".to_string(), unit_query());
    let b = <Router2<Op, Nothing>>::new()
        .procedure("a".to_string(), unit_query())
        .procedure("z".to_string(), unit_query())
        .procedure("z".to_string(), unit_query());
    assert_eq!(
        a.merge(b).build::<()>().err().unwrap(),
        vec![
            Error::DuplicateProcedures(vec!["a".into()]),
            Error::DuplicateProcedures(vec!["z".into()]),
        ]
    );
}

#[test]
fn flattened_empty_path() {
    assert_eq!(get_flattened_name(&vec![]), "");
}

#[test]
fn merge_reports_collisions_in_ascending_order() {
    let a = <Router2<Op, Nothing>>::new()
        .procedure("a".to_string(), unit_query())
        .procedure("b".to_string(), unit_query());
    let b = <Router2<Op, Nothing>>::new()
        .procedure("b".to_string(), unit_query())
        .procedure("a".to_string(), unit_query());
    assert_eq!(
        a.merge(b).build::<()>().err().unwrap(),
        vec![
            Error::DuplicateProcedures(vec!["a".into()]),
            Error::DuplicateProcedures(vec!["b".into()]),
        ]
    );
}

#[test]
fn registry_and_export_in_ascending_key_order() {
    let r = built(
        <Router2<Op, Nothing>>::new()
            .procedure("zeta".to_string(), proc(ProcedureKind::Query, unit_type(), string_type(), Op::Unit))
            .procedure("Beta".to_string(), proc(ProcedureKind::Query, unit_type(), string_type(), Op::Unit))
            .procedure("alpha".to_string(), proc(ProcedureKind::Query, unit_type(), string_type(), Op::Unit)),
    );
    let keys: Vec<String> = r.queries().iter().map(|p| p.key.clone()).collect();
    assert_eq!(keys, vec!["Beta", "alpha", "zeta"]);
    let doc = r.export_ts(&default_config(), &None).unwrap();
    let b = doc.find("key: \"Beta\"").unwrap();
    let a = doc.find("key: \"alpha\"").unwrap();
    let z = doc.find("key: \"zeta\"").unwrap();
    assert!(b < a && a < z);
}

#[test]
fn router_lists_its_paths() {
    let r = <Router2<Op, Nothing>>::new()
        .procedure("b".to_string(), unit_query())
        .nest(
            "a".to_string(),
            <Router2<Op, Nothing>>::new().procedure("x".to_string(), unit_query()),
        );
    assert_eq!(r.keys(), vec![vec!["b".to_string()], vec!["a".to_string(), "x".to_string()]]);
}
