//! The built registry and its dispatcher: procedures looked up by kind and
//! dotted key, their outcome checked against the entry point that was used.
use vstd::prelude::*;
use std::sync::Arc;
use specta::{DataType, TypeCollection};
use crate::error::ExecError;
use crate::path::{join_dot, key_lt, path_view};
use crate::export::of_kind;
use crate::router::{paths_valid, ProcedureKind};

verus! {

/// The kinds that the value entry point `exec` serves.
#[derive(Clone, Copy, Debug, PartialEq, Eq, Structural)]
pub enum ExecKind {
    Query,
    Mutation,
}

/// The procedure kind that an `ExecKind` stands for.
pub open spec fn exec_kind_spec(k: ExecKind) -> ProcedureKind {
    match k {
        ExecKind::Query => ProcedureKind::Query,
        ExecKind::Mutation => ProcedureKind::Mutation,
    }
}

/// What a handler produces: one value, or a lazy stream of values.
pub enum Outcome<V, T> {
    Value(V),
    Stream(T),
}

/// A procedure's executable part, called with the caller's context and input.
pub trait Handler<C, V, T> {
    /// Whether `o` is an outcome that `call(ctx, input)` may return.
    spec fn answers(&self, ctx: C, input: V, o: Result<Outcome<V, T>, ExecError>) -> bool;

    fn call(&self, ctx: C, input: V) -> (o: Result<Outcome<V, T>, ExecError>)
        ensures
            self.answers(ctx, input, o),
    ;
}

/// One registered procedure of a built router.
pub struct Procedure<H> {
    pub path: Vec<String>,
    pub key: String,
    pub kind: ProcedureKind,
    pub input: DataType,
    pub result: DataType,
    pub handler: H,
}

/// Whether `op` is registered for `kind` under the dotted `key`.
pub open spec fn serves<H>(op: Procedure<H>, kind: ProcedureKind, key: Seq<char>) -> bool {
    op.kind == kind && op.key@ == key
}

/// `i` is the first index of `ops` that serves `kind` under `key`.
pub open spec fn first_serving<H>(ops: Seq<Procedure<H>>, kind: ProcedureKind, key: Seq<char>, i: int) -> bool {
    &&& 0 <= i < ops.len()
    &&& serves(ops[i], kind, key)
    &&& forall|j: int| 0 <= j < i ==> !serves(#[trigger] ops[j], kind, key)
}

/// No procedure's key comes before the key of the one before it.
pub open spec fn keys_sorted<H>(ops: Seq<Procedure<H>>) -> bool {
    forall|i: int| 0 <= i < ops.len() - 1 ==> !key_lt(#[trigger] ops[i + 1].key@, ops[i].key@)
}

/// The paths of a sequence of built procedures.
pub open spec fn procedure_paths<H>(ops: Seq<Procedure<H>>) -> Seq<Seq<Seq<char>>> {
    ops.map_values(|op: Procedure<H>| path_view(&op.path))
}

/// The result of the value entry point, given what the handler returned.
pub open spec fn value_outcome<V, T>(key: String, o: Result<Outcome<V, T>, ExecError>) -> Result<
    V,
    ExecError,
> {
    match o {
        Ok(Outcome::Value(v)) => Ok(v),
        Ok(Outcome::Stream(_)) => Err(ExecError::UnsupportedMethod(key)),
        Err(e) => Err(e),
    }
}

/// The result of the subscription entry point, given what the handler returned.
pub open spec fn stream_outcome<V, T>(key: String, o: Result<Outcome<V, T>, ExecError>) -> Result<
    T,
    ExecError,
> {
    match o {
        Ok(Outcome::Value(_)) => Err(ExecError::UnsupportedMethod(key)),
        Ok(Outcome::Stream(s)) => Ok(s),
        Err(e) => Err(e),
    }
}

/// Settles a handler's outcome for the value entry point: a stream there is
/// an `UnsupportedMethod(key)` error, a handler error is passed on.
pub fn settle_value<V, T>(key: String, o: Result<Outcome<V, T>, ExecError>) -> (r: Result<
    V,
    ExecError,
>)
    ensures
        r == value_outcome(key, o),
{
    match o {
        Ok(Outcome::Value(v)) => Ok(v),
        Ok(Outcome::Stream(_)) => Err(ExecError::UnsupportedMethod(key)),
        Err(e) => Err(e),
    }
}

/// Settles a handler's outcome for the subscription entry point: a single
/// value there is an `UnsupportedMethod(key)` error.
pub fn settle_stream<V, T>(key: String, o: Result<Outcome<V, T>, ExecError>) -> (r: Result<
    T,
    ExecError,
>)
    ensures
        r == stream_outcome(key, o),
{
    match o {
        Ok(Outcome::Value(_)) => Err(ExecError::UnsupportedMethod(key)),
        Ok(Outcome::Stream(s)) => Ok(s),
        Err(e) => Err(e),
    }
}

/// The value entry point refuses a stream with `UnsupportedMethod(key)`, and
/// the subscription entry point refuses a single value the same way.
pub proof fn lemma_kind_mismatch<V, T>(key: String, v: V, s: T)
    ensures
        value_outcome::<V, T>(key, Ok(Outcome::Stream(s))) == Err::<V, ExecError>(
            ExecError::UnsupportedMethod(key),
        ),
        stream_outcome::<V, T>(key, Ok(Outcome::Value(v))) == Err::<T, ExecError>(
            ExecError::UnsupportedMethod(key),
        ),
{
}

/// A built, immutable registry.
pub struct Router<H> {
    procedures: Vec<Procedure<H>>,
    type_map: TypeCollection,
}

impl<H> Router<H> {
    /// The registered procedures, in ascending key order.
    pub closed spec fn operations(&self) -> Seq<Procedure<H>> {
        self.procedures@
    }

    /// The named types that the procedures refer to.
    pub closed spec fn types(&self) -> TypeCollection {
        self.type_map
    }

    /// The procedures stand in ascending key order, and each key is its path
    /// joined with `.`.
    pub open spec fn wf(&self) -> bool {
        &&& keys_sorted(self.operations())
        &&& forall|i: int|
            0 <= i < self.operations().len() ==> #[trigger] self.operations()[i].key@ == join_dot(
                path_view(&self.operations()[i].path),
            )
    }

    /// A registry holding `procedures` and the named types they refer to.
    pub(crate) fn from_parts(procedures: Vec<Procedure<H>>, type_map: TypeCollection) -> (r: Self)
        ensures
            r.operations() == procedures@,
            r.types() == type_map,
    {
        Router { procedures, type_map }
    }

    /// The named types that the procedures refer to (an older name of `type_map`).
    pub fn typ_store(&self) -> (r: &TypeCollection)
        ensures
            *r == self.types(),
    {
        &self.type_map
    }

    /// The registered procedures, in ascending key order.
    pub fn procedures(&self) -> (r: &Vec<Procedure<H>>)
        ensures
            r@ == self.operations(),
    {
        &self.procedures
    }

    /// The named types that the procedures refer to.
    pub fn type_map(&self) -> (r: &TypeCollection)
        ensures
            *r == self.types(),
    {
        &self.type_map
    }

    /// The index of the first procedure registered for `kind` under `key`.
    pub fn find(&self, kind: ProcedureKind, key: &String) -> (r: Option<usize>)
        ensures
            r is None <==> forall|i: int|
                0 <= i < self.operations().len() ==> !serves(
                    #[trigger] self.operations()[i],
                    kind,
                    key@,
                ),
            r matches Some(i) ==> {
                &&& i < self.operations().len()
                &&& serves(self.operations()[i as int], kind, key@)
                &&& forall|j: int| 0 <= j < i ==> !serves(#[trigger] self.operations()[j], kind, key@)
            },
    {
        let mut i: usize = 0;
        while i < self.procedures.len()
            invariant
                i <= self.procedures.len(),
                forall|j: int| 0 <= j < i ==> !serves(#[trigger] self.operations()[j], kind, key@),
            decreases self.procedures.len() - i,
        {
            if self.procedures[i].kind == kind && self.procedures[i].key == *key {
                assert(serves(self.operations()[i as int], kind, key@));
                return Some(i);
            }
            i = i + 1;
        }
        None
    }

    /// Calls the query or mutation registered under `key` and returns its
    /// single value. No such procedure: `OperationNotFound(key)`. A procedure
    /// that answers with a stream: `UnsupportedMethod(key)`. A handler error is
    /// passed on unchanged.
    pub fn exec<C, V, T>(&self, ctx: C, kind: ExecKind, key: String, input: V) -> (r: Result<
        V,
        ExecError,
    >) where H: Handler<C, V, T>
        ensures
            (forall|i: int|
                0 <= i < self.operations().len() ==> !serves(
                    #[trigger] self.operations()[i],
                    exec_kind_spec(kind),
                    key@,
                )) ==> r == Err::<V, ExecError>(ExecError::OperationNotFound(key)),
            (exists|i: int|
                0 <= i < self.operations().len() && serves(
                    #[trigger] self.operations()[i],
                    exec_kind_spec(kind),
                    key@,
                )) ==> exists|i: int, o: Result<Outcome<V, T>, ExecError>|
                first_serving(self.operations(), exec_kind_spec(kind), key@, i)
                    && self.operations()[i].handler.answers(ctx, input, o)
                    && r == value_outcome(key, o),
    {
        let pk = match kind {
            ExecKind::Query => ProcedureKind::Query,
            ExecKind::Mutation => ProcedureKind::Mutation,
        };
        match self.find(pk, &key) {
            None => Err(ExecError::OperationNotFound(key)),
            Some(i) => {
                let ghost c = ctx;
                let ghost v = input;
                let o = self.procedures[i].handler.call(ctx, input);
                assert(first_serving(self.operations(), pk, key@, i as int));
                assert(self.operations()[i as int].handler.answers(c, v, o));
                settle_value(key, o)
            },
        }
    }

    /// Calls the subscription registered under `key` and returns its stream.
    /// No such subscription: `OperationNotFound(key)`. One that answers with a
    /// single value: `UnsupportedMethod(key)`.
    pub fn exec_subscription<C, V, T>(&self, ctx: C, key: String, input: V) -> (r: Result<
        T,
        ExecError,
    >) where H: Handler<C, V, T>
        ensures
            (forall|i: int|
                0 <= i < self.operations().len() ==> !serves(
                    #[trigger] self.operations()[i],
                    ProcedureKind::Subscription,
                    key@,
                )) ==> r == Err::<T, ExecError>(ExecError::OperationNotFound(key)),
            (exists|i: int|
                0 <= i < self.operations().len() && serves(
                    #[trigger] self.operations()[i],
                    ProcedureKind::Subscription,
                    key@,
                )) ==> exists|i: int, o: Result<Outcome<V, T>, ExecError>|
                first_serving(self.operations(), ProcedureKind::Subscription, key@, i)
                    && self.operations()[i].handler.answers(ctx, input, o)
                    && r == stream_outcome(key, o),
    {
        match self.find(ProcedureKind::Subscription, &key) {
            None => Err(ExecError::OperationNotFound(key)),
            Some(i) => {
                let ghost c = ctx;
                let ghost v = input;
                let o = self.procedures[i].handler.call(ctx, input);
                assert(first_serving(self.operations(), ProcedureKind::Subscription, key@, i as int));
                assert(self.operations()[i as int].handler.answers(c, v, o));
                settle_stream(key, o)
            },
        }
    }

    /// `exec` for a query.
    pub fn exec_query<C, V, T>(&self, ctx: C, key: String, input: V) -> (r: Result<V, ExecError>) where
        H: Handler<C, V, T>,
        ensures
            (forall|i: int|
                0 <= i < self.operations().len() ==> !serves(
                    #[trigger] self.operations()[i],
                    ProcedureKind::Query,
                    key@,
                )) ==> r == Err::<V, ExecError>(ExecError::OperationNotFound(key)),
            (exists|i: int|
                0 <= i < self.operations().len() && serves(
                    #[trigger] self.operations()[i],
                    ProcedureKind::Query,
                    key@,
                )) ==> exists|i: int, o: Result<Outcome<V, T>, ExecError>|
                first_serving(self.operations(), ProcedureKind::Query, key@, i)
                    && self.operations()[i].handler.answers(ctx, input, o)
                    && r == value_outcome(key, o),
    {
        self.exec(ctx, ExecKind::Query, key, input)
    }

    /// `exec` for a mutation.
    pub fn exec_mutation<C, V, T>(&self, ctx: C, key: String, input: V) -> (r: Result<V, ExecError>) where
        H: Handler<C, V, T>,
        ensures
            (forall|i: int|
                0 <= i < self.operations().len() ==> !serves(
                    #[trigger] self.operations()[i],
                    ProcedureKind::Mutation,
                    key@,
                )) ==> r == Err::<V, ExecError>(ExecError::OperationNotFound(key)),
            (exists|i: int|
                0 <= i < self.operations().len() && serves(
                    #[trigger] self.operations()[i],
                    ProcedureKind::Mutation,
                    key@,
                )) ==> exists|i: int, o: Result<Outcome<V, T>, ExecError>|
                first_serving(self.operations(), ProcedureKind::Mutation, key@, i)
                    && self.operations()[i].handler.answers(ctx, input, o)
                    && r == value_outcome(key, o),
    {
        self.exec(ctx, ExecKind::Mutation, key, input)
    }

    /// The procedures of `kind`, in ascending key order.
    fn of_kind_refs(&self, kind: ProcedureKind) -> (r: Vec<&Procedure<H>>)
        ensures
            r@.len() == of_kind(self.operations(), kind).len(),
            forall|i: int| 0 <= i < r@.len() ==> *#[trigger] r@[i] == of_kind(self.operations(), kind)[i],
    {
        let mut r: Vec<&Procedure<H>> = Vec::new();
        let mut i: usize = 0;
        while i < self.procedures.len()
            invariant
                i <= self.procedures.len(),
                r@.len() == of_kind(self.operations().subrange(0, i as int), kind).len(),
                forall|j: int|
                    0 <= j < r@.len() ==> *#[trigger] r@[j] == of_kind(
                        self.operations().subrange(0, i as int),
                        kind,
                    )[j],
            decreases self.procedures.len() - i,
        {
            let ghost sub = self.operations().subrange(0, i + 1);
            let ghost sub0 = self.operations().subrange(0, i as int);
            assert(sub.drop_last() =~= sub0);
            assert(sub.last() == self.operations()[i as int]);
            if self.procedures[i].kind == kind {
                let ghost prev = r@;
                r.push(&self.procedures[i]);
                assert(of_kind(sub, kind) == of_kind(sub0, kind).push(self.operations()[i as int]));
                assert forall|j: int| 0 <= j < r@.len() implies *#[trigger] r@[j] == of_kind(sub, kind)[j] by {
                    if j < prev.len() {
                        assert(r@[j] == prev[j]);
                    }
                }
            } else {
                assert(of_kind(sub, kind) == of_kind(sub0, kind));
            }
            i = i + 1;
        }
        assert(self.operations().subrange(0, i as int) =~= self.operations());
        r
    }

    /// The queries, in ascending key order.
    pub fn queries(&self) -> (r: Vec<&Procedure<H>>)
        ensures
            r@.len() == of_kind(self.operations(), ProcedureKind::Query).len(),
            forall|i: int|
                0 <= i < r@.len() ==> *#[trigger] r@[i] == of_kind(self.operations(), ProcedureKind::Query)[i],
    {
        self.of_kind_refs(ProcedureKind::Query)
    }

    /// The mutations, in ascending key order.
    pub fn mutations(&self) -> (r: Vec<&Procedure<H>>)
        ensures
            r@.len() == of_kind(self.operations(), ProcedureKind::Mutation).len(),
            forall|i: int|
                0 <= i < r@.len() ==> *#[trigger] r@[i] == of_kind(self.operations(), ProcedureKind::Mutation)[i],
    {
        self.of_kind_refs(ProcedureKind::Mutation)
    }

    /// The subscriptions, in ascending key order.
    pub fn subscriptions(&self) -> (r: Vec<&Procedure<H>>)
        ensures
            r@.len() == of_kind(self.operations(), ProcedureKind::Subscription).len(),
            forall|i: int|
                0 <= i < r@.len() ==> *#[trigger] r@[i] == of_kind(self.operations(), ProcedureKind::Subscription)[i],
    {
        self.of_kind_refs(ProcedureKind::Subscription)
    }

    /// The registry split by kind: queries, mutations and subscriptions, each
    /// in ascending key order, and the named types.
    pub fn into_parts(self) -> (r: (Vec<Procedure<H>>, Vec<Procedure<H>>, Vec<Procedure<H>>, TypeCollection))
        ensures
            r.0@ == of_kind(self.operations(), ProcedureKind::Query),
            r.1@ == of_kind(self.operations(), ProcedureKind::Mutation),
            r.2@ == of_kind(self.operations(), ProcedureKind::Subscription),
            r.3 == self.types(),
    {
        let ghost ops = self.operations();
        let ghost n = ops.len();
        let mut rest = self.procedures;
        let mut q: Vec<Procedure<H>> = Vec::new();
        let mut m: Vec<Procedure<H>> = Vec::new();
        let mut s: Vec<Procedure<H>> = Vec::new();
        let ghost k: int = 0;
        while rest.len() > 0
            invariant
                0 <= k <= n,
                n == ops.len(),
                rest@ == ops.subrange(k, n as int),
                q@ == of_kind(ops.subrange(0, k), ProcedureKind::Query),
                m@ == of_kind(ops.subrange(0, k), ProcedureKind::Mutation),
                s@ == of_kind(ops.subrange(0, k), ProcedureKind::Subscription),
            decreases rest.len(),
        {
            let op = rest.remove(0);
            proof {
                let sub = ops.subrange(0, k + 1);
                assert(sub.drop_last() =~= ops.subrange(0, k));
                assert(sub.last() == op);
                assert(rest@ =~= ops.subrange(k + 1, n as int));
                k = k + 1;
            }
            match op.kind {
                ProcedureKind::Query => q.push(op),
                ProcedureKind::Mutation => m.push(op),
                ProcedureKind::Subscription => s.push(op),
            }
        }
        assert(ops.subrange(0, n as int) =~= ops);
        (q, m, s, self.type_map)
    }

    /// The registry behind a shared, read-only handle.
    pub fn arced(self) -> (r: Arc<Self>)
        ensures
            *r == self,
    {
        Arc::new(self)
    }

    /// A registry with no procedure serves no kind under any key, so every
    /// call through `exec` or `exec_subscription` ends in `OperationNotFound`.
    pub proof fn lemma_empty_registry(&self)
        requires
            self.operations().len() == 0,
        ensures
            forall|kind: ProcedureKind, key: Seq<char>, i: int|
                0 <= i < self.operations().len() ==> !#[trigger] serves(
                    self.operations()[i],
                    kind,
                    key,
                ),
    {
    }
}

} // verus!
