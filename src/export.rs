//! The binding document: three per-kind unions of procedure records in one
//! `Procedures` type, followed by a declaration for every named type.
use vstd::prelude::*;
use crate::error::ExportError;
use crate::legacy::{Procedure, Router};
use crate::reflect::{
    bindings_config, config_refusing_bigint, is_no_argument, named_types, named_types_of,
    render_declaration, render_type, ts_declaration, ts_inline, tuple_arity,
};
use crate::router::ProcedureKind;
use specta::datatype::NamedDataType;
use specta::{DataType, TypeCollection};
use specta_typescript::Typescript;

verus! {

/// Why 64- and 128-bit integers are refused: `JSON.parse` decodes them lossily.
pub const BIGINT_REASON: &'static str = "rspc does not support exporting bigint types (i64, u64, i128, u128) because they are lossily decoded by `JSON.parse` on the frontend. Tracking issue: https://github.com/specta-rs/rspc/issues/93";

/// The line that marks the document as generated.
pub const GENERATED_NOTICE: &'static str = "// This file was generated by [rspc](https://github.com/specta-rs/rspc). Do not edit this file manually.";

/// One procedure as text: its dotted key, its input (`None` when it takes no
/// argument) and its result.
pub struct ProcedureText {
    pub key: String,
    pub input: Option<String>,
    pub result: String,
}

/// A record as characters: key, input (`None` for no argument) and result.
pub type Record = (Seq<char>, Option<Seq<char>>, Seq<char>);

/// The characters of a `ProcedureText`.
pub open spec fn text_of(p: ProcedureText) -> Record {
    (
        p.key@,
        match p.input {
            Some(s) => Some(s@),
            None => None,
        },
        p.result@,
    )
}

/// The characters of a sequence of `ProcedureText`s.
pub open spec fn texts_of(ps: Seq<ProcedureText>) -> Seq<Record> {
    ps.map_values(|p: ProcedureText| text_of(p))
}

/// The input field's text: the bottom type `never` for no argument.
pub open spec fn input_text(input: Option<Seq<char>>) -> Seq<char> {
    match input {
        Some(s) => s,
        None => "never"@,
    }
}

/// The record of one procedure in a per-kind union.
pub open spec fn entry_text(p: Record) -> Seq<char> {
    "\n        { key: \""@ + p.0 + "\", input: "@ + input_text(p.1) + ", result: "@ + p.2 + " }"@
}

/// The records joined with ` | `.
pub open spec fn join_bar(ps: Seq<Record>) -> Seq<char>
    decreases ps.len(),
{
    if ps.len() == 0 {
        seq![]
    } else if ps.len() == 1 {
        entry_text(ps[0])
    } else {
        join_bar(ps.drop_last()) + " | "@ + entry_text(ps.last())
    }
}

/// A per-kind union: `never` when the kind has no procedure.
pub open spec fn union_text(ps: Seq<Record>) -> Seq<char> {
    if ps.len() == 0 {
        "never"@
    } else {
        join_bar(ps)
    }
}

/// The umbrella type over the three unions.
pub open spec fn procedures_text(q: Seq<char>, m: Seq<char>, s: Seq<char>) -> Seq<char> {
    "\nexport type Procedures = {\n    queries: "@ + q + ",\n    mutations: "@ + m
        + ",\n    subscriptions: "@ + s + "\n};\n"@
}

/// Each declaration on a line of its own, after an empty line.
pub open spec fn declarations_text(ds: Seq<Seq<char>>) -> Seq<char>
    decreases ds.len(),
{
    if ds.len() == 0 {
        seq![]
    } else {
        declarations_text(ds.drop_last()) + "\n"@ + ds.last() + "\n"@
    }
}

/// The header on a line of its own, if there is one.
pub open spec fn header_text(header: Option<String>) -> Seq<char> {
    match header {
        Some(h) => h@ + "\n"@,
        None => seq![],
    }
}

/// The whole document.
pub open spec fn document_text(
    header: Option<String>,
    q: Seq<char>,
    m: Seq<char>,
    s: Seq<char>,
    ds: Seq<Seq<char>>,
) -> Seq<char> {
    header_text(header) + GENERATED_NOTICE@ + "\n"@ + procedures_text(q, m, s) + declarations_text(
        ds,
    )
}

/// The procedures of `ops` of the given kind, in order.
pub open spec fn of_kind<H>(ops: Seq<Procedure<H>>, kind: ProcedureKind) -> Seq<Procedure<H>>
    decreases ops.len(),
{
    if ops.len() == 0 {
        seq![]
    } else if ops.last().kind == kind {
        of_kind(ops.drop_last(), kind).push(ops.last())
    } else {
        of_kind(ops.drop_last(), kind)
    }
}

/// The exporter's inline text of `ty`, or its message (the panicking case,
/// which `renderable` rules out, as an empty message).
pub open spec fn inline_of(conf: Typescript, ty: DataType, types: TypeCollection) -> Result<
    Seq<char>,
    Seq<char>,
> {
    match ts_inline(conf, ty, types) {
        Some(r) => r,
        None => Err(seq![]),
    }
}

/// The record of `op`: its key, its input (none for no argument, else the
/// exporter's text) and its result; or the first message of the exporter.
pub open spec fn record_of<H>(conf: Typescript, op: Procedure<H>, types: TypeCollection) -> Result<
    Record,
    Seq<char>,
> {
    let input: Result<Option<Seq<char>>, Seq<char>> = if is_no_argument(op.input) {
        Ok(None)
    } else {
        match inline_of(conf, op.input, types) {
            Ok(s) => Ok(Some(s)),
            Err(e) => Err(e),
        }
    };
    match input {
        Err(e) => Err(e),
        Ok(i) => match inline_of(conf, op.result, types) {
            Ok(r) => Ok((op.key@, i, r)),
            Err(e) => Err(e),
        },
    }
}

/// The records of `ops` in order, or the message of the first that fails.
pub open spec fn records_of<H>(conf: Typescript, ops: Seq<Procedure<H>>, types: TypeCollection) -> Result<
    Seq<Record>,
    Seq<char>,
>
    decreases ops.len(),
{
    if ops.len() == 0 {
        Ok(seq![])
    } else {
        match records_of(conf, ops.drop_last(), types) {
            Err(e) => Err(e),
            Ok(rs) => match record_of(conf, ops.last(), types) {
                Ok(r) => Ok(rs.push(r)),
                Err(e) => Err(e),
            },
        }
    }
}

/// The declarations of `nds` in order, or the message of the first that fails.
pub open spec fn declarations_of(conf: Typescript, nds: Seq<NamedDataType>, types: TypeCollection) -> Result<
    Seq<Seq<char>>,
    Seq<char>,
>
    decreases nds.len(),
{
    if nds.len() == 0 {
        Ok(seq![])
    } else {
        match declarations_of(conf, nds.drop_last(), types) {
            Err(e) => Err(e),
            Ok(ds) => match ts_declaration(conf, nds.last(), types) {
                Some(Ok(d)) => Ok(ds.push(d)),
                Some(Err(e)) => Err(e),
                None => Err(seq![]),
            },
        }
    }
}

/// The exporter runs to completion on every descriptor of `ops` that is
/// rendered and on every named type of `types`.
pub open spec fn renderable<H>(conf: Typescript, ops: Seq<Procedure<H>>, types: TypeCollection) -> bool {
    &&& forall|i: int|
        0 <= i < ops.len() ==> (!is_no_argument(#[trigger] ops[i].input) ==> ts_inline(
            conf,
            ops[i].input,
            types,
        ) is Some) && ts_inline(conf, ops[i].result, types) is Some
    &&& forall|i: int|
        0 <= i < named_types_of(types).len() ==> ts_declaration(
            conf,
            #[trigger] named_types_of(types)[i],
            types,
        ) is Some
}

/// The document for `ops` and `types`, or the first message of the exporter:
/// queries, then mutations, then subscriptions, then the named types.
pub open spec fn export_text<H>(
    conf: Typescript,
    header: Option<String>,
    ops: Seq<Procedure<H>>,
    types: TypeCollection,
) -> Result<Seq<char>, Seq<char>> {
    match records_of(conf, of_kind(ops, ProcedureKind::Query), types) {
        Err(e) => Err(e),
        Ok(q) => match records_of(conf, of_kind(ops, ProcedureKind::Mutation), types) {
            Err(e) => Err(e),
            Ok(m) => match records_of(conf, of_kind(ops, ProcedureKind::Subscription), types) {
                Err(e) => Err(e),
                Ok(s) => match declarations_of(conf, named_types_of(types), types) {
                    Err(e) => Err(e),
                    Ok(ds) => Ok(
                        document_text(header, union_text(q), union_text(m), union_text(s), ds),
                    ),
                },
            },
        },
    }
}

/// The characters of an export's result.
pub open spec fn export_result(r: Result<String, ExportError>) -> Result<Seq<char>, Seq<char>> {
    match r {
        Ok(d) => Ok(d@),
        Err(ExportError::ExportFailure(e)) => Err(e@),
    }
}

/// The text of one record, as it stands in a per-kind union.
pub fn procedure_entry(p: &ProcedureText) -> (r: String)
    ensures
        r@ == entry_text(text_of(*p)),
{
    let mut r = String::new();
    r.append("\n        { key: \"");
    r.append(p.key.as_str());
    r.append("\", input: ");
    match &p.input {
        Some(i) => r.append(i.as_str()),
        None => r.append("never"),
    }
    r.append(", result: ");
    r.append(p.result.as_str());
    r.append(" }");
    proof {
        assert(seq![] + "\n        { key: \""@ =~= "\n        { key: \""@);
    }
    r
}

/// One kind's union of records: `never` where there is none.
pub fn generate_procedures_ts(ps: &Vec<ProcedureText>) -> (r: String)
    ensures
        r@ == union_text(texts_of(ps@)),
{
    if ps.len() == 0 {
        return String::from_str("never");
    }
    let mut r = procedure_entry(&ps[0]);
    let mut i: usize = 1;
    while i < ps.len()
        invariant
            1 <= i <= ps.len(),
            r@ == join_bar(texts_of(ps@.subrange(0, i as int))),
        decreases ps.len() - i,
    {
        r.append(" | ");
        let e = procedure_entry(&ps[i]);
        r.append(e.as_str());
        assert(texts_of(ps@.subrange(0, i + 1)).drop_last() =~= texts_of(ps@.subrange(0, i as int)));
        i = i + 1;
    }
    assert(ps@.subrange(0, ps.len() as int) =~= ps@);
    r
}

/// The document from its parts: the optional header, the notice, the three
/// unions in one `Procedures` type, then every declaration.
pub fn render_document(
    header: &Option<String>,
    queries: &String,
    mutations: &String,
    subscriptions: &String,
    declarations: &Vec<String>,
) -> (r: String)
    ensures
        r@ == document_text(*header, queries@, mutations@, subscriptions@, declarations@.map_values(|d: String| d@)),
{
    let mut r = String::new();
    match header {
        Some(h) => {
            r.append(h.as_str());
            r.append("\n");
        },
        None => {},
    }
    r.append(GENERATED_NOTICE);
    r.append("\n");
    let ghost before = r@;
    r.append("\nexport type Procedures = {\n    queries: ");
    r.append(queries.as_str());
    r.append(",\n    mutations: ");
    r.append(mutations.as_str());
    r.append(",\n    subscriptions: ");
    r.append(subscriptions.as_str());
    r.append("\n};\n");
    assert(r@ =~= before + procedures_text(queries@, mutations@, subscriptions@));
    let ghost ds = declarations@.map_values(|d: String| d@);
    let ghost start = r@;
    let mut i: usize = 0;
    while i < declarations.len()
        invariant
            i <= declarations.len(),
            ds == declarations@.map_values(|d: String| d@),
            r@ == start + declarations_text(ds.subrange(0, i as int)),
        decreases declarations.len() - i,
    {
        r.append("\n");
        r.append(declarations[i].as_str());
        r.append("\n");
        assert(ds.subrange(0, i + 1).drop_last() =~= ds.subrange(0, i as int));
        assert(r@ =~= start + declarations_text(ds.subrange(0, i + 1)));
        i = i + 1;
    }
    assert(ds.subrange(0, declarations.len() as int) =~= ds);
    assert(header_text(*header) + GENERATED_NOTICE@ + "\n"@ =~= before);
    r
}

/// Filtering by kind distributes over concatenation.
proof fn lemma_of_kind_split<H>(a: Seq<Procedure<H>>, b: Seq<Procedure<H>>, kind: ProcedureKind)
    ensures
        of_kind(a + b, kind) == of_kind(a, kind) + of_kind(b, kind),
    decreases b.len(),
{
    if b.len() == 0 {
        assert(a + b =~= a);
        assert(of_kind(a, kind) + of_kind(b, kind) =~= of_kind(a, kind));
    } else {
        lemma_of_kind_split(a, b.drop_last(), kind);
        assert((a + b).drop_last() =~= a + b.drop_last());
        assert((a + b).last() == b.last());
        if b.last().kind == kind {
            assert(of_kind(a, kind) + of_kind(b.drop_last(), kind).push(b.last()) =~= (of_kind(a, kind)
                + of_kind(b.drop_last(), kind)).push(b.last()));
        }
    }
}

/// Once a prefix fails, the whole fails with the same message.
proof fn lemma_records_fail_prefix<H>(
    conf: Typescript,
    xs: Seq<Procedure<H>>,
    ys: Seq<Procedure<H>>,
    types: TypeCollection,
)
    requires
        records_of(conf, xs, types) is Err,
    ensures
        records_of(conf, xs + ys, types) == records_of(conf, xs, types),
    decreases ys.len(),
{
    if ys.len() == 0 {
        assert(xs + ys =~= xs);
    } else {
        lemma_records_fail_prefix(conf, xs, ys.drop_last(), types);
        assert((xs + ys).drop_last() =~= xs + ys.drop_last());
    }
}

/// Once a prefix fails, the whole fails with the same message.
proof fn lemma_declarations_fail_prefix(
    conf: Typescript,
    xs: Seq<NamedDataType>,
    ys: Seq<NamedDataType>,
    types: TypeCollection,
)
    requires
        declarations_of(conf, xs, types) is Err,
    ensures
        declarations_of(conf, xs + ys, types) == declarations_of(conf, xs, types),
    decreases ys.len(),
{
    if ys.len() == 0 {
        assert(xs + ys =~= xs);
    } else {
        lemma_declarations_fail_prefix(conf, xs, ys.drop_last(), types);
        assert((xs + ys).drop_last() =~= xs + ys.drop_last());
    }
}

/// The records of the procedures of `kind`, in order; the input of one that
/// takes no argument is left out. The first message of the exporter fails the
/// whole.
pub fn render_procedures<H>(
    conf: &Typescript,
    ops: &Vec<Procedure<H>>,
    kind: ProcedureKind,
    types: &TypeCollection,
) -> (r: Result<Vec<ProcedureText>, ExportError>)
    requires
        renderable(*conf, ops@, *types),
    ensures
        match r {
            Ok(ts) => records_of(*conf, of_kind(ops@, kind), *types) == Ok::<
                Seq<Record>,
                Seq<char>,
            >(texts_of(ts@)),
            Err(ExportError::ExportFailure(e)) => records_of(*conf, of_kind(ops@, kind), *types)
                == Err::<Seq<Record>, Seq<char>>(e@),
        },
{
    let mut out: Vec<ProcedureText> = Vec::new();
    let mut i: usize = 0;
    assert(of_kind(ops@.subrange(0, 0), kind) =~= seq![]);
    assert(texts_of(out@) =~= seq![]);
    while i < ops.len()
        invariant
            i <= ops.len(),
            renderable(*conf, ops@, *types),
            records_of(*conf, of_kind(ops@.subrange(0, i as int), kind), *types) == Ok::<
                Seq<Record>,
                Seq<char>,
            >(texts_of(out@)),
        decreases ops.len() - i,
    {
        let ghost pre = ops@.subrange(0, i as int);
        let ghost sub = ops@.subrange(0, i + 1);
        assert(sub.drop_last() =~= pre);
        assert(sub.last() == ops@[i as int]);
        proof {
            lemma_of_kind_split(sub, ops@.subrange(i + 1, ops.len() as int), kind);
            assert(sub + ops@.subrange(i + 1, ops.len() as int) =~= ops@);
        }
        let op = &ops[i];
        if op.kind == kind {
            assert(of_kind(sub, kind) == of_kind(pre, kind).push(*op));
            assert(of_kind(sub, kind).drop_last() =~= of_kind(pre, kind));
            let no_argument = match tuple_arity(&op.input) {
                Some(n) => n == 0,
                None => false,
            };
            let input = if no_argument {
                None
            } else {
                match render_type(conf, &op.input, types) {
                    Ok(t) => Some(t),
                    Err(reason) => {
                        proof {
                            assert(record_of(*conf, *op, *types) == Err::<Record, Seq<char>>(reason@));
                            lemma_records_fail_prefix(
                                *conf,
                                of_kind(sub, kind),
                                of_kind(ops@.subrange(i + 1, ops.len() as int), kind),
                                *types,
                            );
                        }
                        return Err(ExportError::ExportFailure(reason));
                    },
                }
            };
            let result = match render_type(conf, &op.result, types) {
                Ok(t) => t,
                Err(reason) => {
                    proof {
                        assert(record_of(*conf, *op, *types) == Err::<Record, Seq<char>>(reason@));
                        lemma_records_fail_prefix(
                            *conf,
                            of_kind(sub, kind),
                            of_kind(ops@.subrange(i + 1, ops.len() as int), kind),
                            *types,
                        );
                    }
                    return Err(ExportError::ExportFailure(reason));
                },
            };
            let key = op.key.clone();
            let t = ProcedureText { key, input, result };
            let ghost prev = out@;
            assert(record_of(*conf, *op, *types) == Ok::<Record, Seq<char>>(text_of(t)));
            out.push(t);
            assert(texts_of(out@) =~= texts_of(prev).push(text_of(t)));
        } else {
            assert(of_kind(sub, kind) == of_kind(pre, kind));
        }
        i = i + 1;
    }
    assert(ops@.subrange(0, ops.len() as int) =~= ops@);
    Ok(out)
}

/// A declaration for every named type of `types`, in the collection's order.
/// The first message of the exporter fails the whole.
pub fn render_named_types(conf: &Typescript, types: &TypeCollection) -> (r: Result<
    Vec<String>,
    ExportError,
>)
    requires
        forall|i: int|
            0 <= i < named_types_of(*types).len() ==> ts_declaration(
                *conf,
                #[trigger] named_types_of(*types)[i],
                *types,
            ) is Some,
    ensures
        match r {
            Ok(ds) => declarations_of(*conf, named_types_of(*types), *types) == Ok::<
                Seq<Seq<char>>,
                Seq<char>,
            >(ds@.map_values(|d: String| d@)),
            Err(ExportError::ExportFailure(e)) => declarations_of(
                *conf,
                named_types_of(*types),
                *types,
            ) == Err::<Seq<Seq<char>>, Seq<char>>(e@),
        },
{
    let nds = named_types(types);
    let mut out: Vec<String> = Vec::new();
    let mut i: usize = 0;
    assert(nds@.subrange(0, 0) =~= seq![]);
    assert(out@.map_values(|d: String| d@) =~= seq![]);
    while i < nds.len()
        invariant
            i <= nds.len(),
            nds@ == named_types_of(*types),
            forall|j: int|
                0 <= j < named_types_of(*types).len() ==> ts_declaration(
                    *conf,
                    #[trigger] named_types_of(*types)[j],
                    *types,
                ) is Some,
            declarations_of(*conf, nds@.subrange(0, i as int), *types) == Ok::<
                Seq<Seq<char>>,
                Seq<char>,
            >(out@.map_values(|d: String| d@)),
        decreases nds.len() - i,
    {
        let ghost pre = nds@.subrange(0, i as int);
        let ghost sub = nds@.subrange(0, i + 1);
        assert(sub.drop_last() =~= pre);
        assert(sub.last() == nds@[i as int]);
        assert(ts_declaration(*conf, nds@[i as int], *types) is Some);
        match render_declaration(conf, &nds[i], types) {
            Ok(d) => {
                let ghost prev = out@;
                out.push(d);
                assert(out@.map_values(|d: String| d@) =~= prev.map_values(|d: String| d@).push(d@));
            },
            Err(reason) => {
                proof {
                    lemma_declarations_fail_prefix(*conf, sub, nds@.subrange(i + 1, nds.len() as int), *types);
                    assert(sub + nds@.subrange(i + 1, nds.len() as int) =~= nds@);
                }
                return Err(ExportError::ExportFailure(reason));
            },
        }
        i = i + 1;
    }
    assert(nds@.subrange(0, nds.len() as int) =~= nds@);
    Ok(out)
}

/// The exporter's configuration for bindings: 64- and 128-bit integers,
/// `usize` and `isize` are refused with `BIGINT_REASON`.
pub fn default_config() -> (r: Typescript)
    ensures
        r == config_refusing_bigint(BIGINT_REASON@),
{
    bindings_config(BIGINT_REASON)
}

impl<H> Router<H> {
    /// The binding document under `conf`, with `header` on its first line if
    /// given: the three per-kind unions, then a declaration for every named
    /// type. A type that the exporter refuses fails the export with the
    /// exporter's message. Every descriptor must be one the exporter runs to
    /// completion on: its references are among the registry's named types.
    pub fn export_ts(&self, conf: &Typescript, header: &Option<String>) -> (r: Result<String, ExportError>)
        requires
            renderable(*conf, self.operations(), self.types()),
        ensures
            export_result(r) == export_text(*conf, *header, self.operations(), self.types()),
    {
        let ops = self.procedures();
        let types = self.type_map();
        let q = match render_procedures(conf, ops, ProcedureKind::Query, types) {
            Ok(t) => t,
            Err(e) => {
                return Err(e);
            },
        };
        let m = match render_procedures(conf, ops, ProcedureKind::Mutation, types) {
            Ok(t) => t,
            Err(e) => {
                return Err(e);
            },
        };
        let s = match render_procedures(conf, ops, ProcedureKind::Subscription, types) {
            Ok(t) => t,
            Err(e) => {
                return Err(e);
            },
        };
        let ds = match render_named_types(conf, types) {
            Ok(d) => d,
            Err(e) => {
                return Err(e);
            },
        };
        let qt = generate_procedures_ts(&q);
        let mt = generate_procedures_ts(&m);
        let st = generate_procedures_ts(&s);
        let doc = render_document(header, &qt, &mt, &st, &ds);
        Ok(doc)
    }
}

/// Rendering is deterministic: two exports of the same registry with the same
/// configuration and header give the same document, byte for byte, or the same failure.
pub proof fn lemma_export_deterministic<H>(
    conf: Typescript,
    header: Option<String>,
    ops: Seq<Procedure<H>>,
    types: TypeCollection,
    a: Result<String, ExportError>,
    b: Result<String, ExportError>,
)
    requires
        export_result(a) == export_text(conf, header, ops, types),
        export_result(b) == export_text(conf, header, ops, types),
    ensures
        export_result(a) == export_result(b),
        a is Ok <==> b is Ok,
{
}

/// A procedure that takes no argument has `never` as its input field.
pub proof fn lemma_no_argument_input<H>(conf: Typescript, op: Procedure<H>, types: TypeCollection)
    requires
        is_no_argument(op.input),
    ensures
        record_of(conf, op, types) matches Ok(rec) ==> rec.1 is None && entry_text(rec)
            == "\n        { key: \""@ + op.key@ + "\", input: "@ + "never"@ + ", result: "@ + rec.2
            + " }"@,
{
}

/// A kind with no procedure has no record and renders as `never`.
pub proof fn lemma_empty_kind_never<H>(
    conf: Typescript,
    ops: Seq<Procedure<H>>,
    kind: ProcedureKind,
    types: TypeCollection,
)
    requires
        forall|i: int| 0 <= i < ops.len() ==> (#[trigger] ops[i]).kind != kind,
    ensures
        of_kind(ops, kind).len() == 0,
        records_of(conf, of_kind(ops, kind), types) == Ok::<Seq<Record>, Seq<char>>(seq![]),
        union_text(seq![]) == "never"@,
    decreases ops.len(),
{
    if ops.len() > 0 {
        assert forall|i: int| 0 <= i < ops.drop_last().len() implies (
        #[trigger] ops.drop_last()[i]).kind != kind by {
            assert(ops.drop_last()[i] == ops[i]);
        }
        assert(ops.last().kind != kind);
        lemma_empty_kind_never(conf, ops.drop_last(), kind, types);
    }
}

} // verus!
