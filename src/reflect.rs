//! The type-reflection collaborator: specta's type descriptors, the
//! collection of named types that they refer to, and the TypeScript exporter.
//! All three are opaque here; what the exporter makes of them is named.
use vstd::prelude::*;

verus! {

#[verifier::external_type_specification]
#[verifier::external_body]
pub struct ExDataType(specta::DataType);

#[verifier::external_type_specification]
#[verifier::external_body]
pub struct ExNamedDataType(specta::datatype::NamedDataType);

#[verifier::external_type_specification]
#[verifier::external_body]
pub struct ExTypeCollection(specta::TypeCollection);

#[verifier::external_type_specification]
#[verifier::external_body]
pub struct ExTypescript(specta_typescript::Typescript);

/// The number of elements of a tuple descriptor; `None` for any other shape.
pub uninterp spec fn tuple_arity_of(ty: specta::DataType) -> Option<nat>;

/// Whether a type descriptor is the empty tuple, the shape of `()`: an input
/// that takes no argument.
pub open spec fn is_no_argument(ty: specta::DataType) -> bool {
    tuple_arity_of(ty) == Some(0nat)
}

/// The named types of a collection, in the order in which it hands them out.
pub uninterp spec fn named_types_of(types: specta::TypeCollection) -> Seq<
    specta::datatype::NamedDataType,
>;

/// The default TypeScript configuration with 64- and 128-bit integers refused
/// for `reason`.
pub uninterp spec fn config_refusing_bigint(reason: Seq<char>) -> specta_typescript::Typescript;

/// What the exporter makes of `ty` inline: its text or its error message.
/// `None` where the exporter panics instead (a reference that `types` does
/// not hold, or an enum representation that serde does not allow).
pub uninterp spec fn ts_inline(
    conf: specta_typescript::Typescript,
    ty: specta::DataType,
    types: specta::TypeCollection,
) -> Option<Result<Seq<char>, Seq<char>>>;

/// What the exporter makes of a named type as a declaration, as for `ts_inline`.
pub uninterp spec fn ts_declaration(
    conf: specta_typescript::Typescript,
    ty: specta::datatype::NamedDataType,
    types: specta::TypeCollection,
) -> Option<Result<Seq<char>, Seq<char>>>;

/// Relies on `DataType::Tuple` and `TupleType::elements`: the number of
/// elements of a tuple descriptor, `None` for any other variant.
#[verifier::external_body]
pub(crate) fn tuple_arity(ty: &specta::DataType) -> (r: Option<usize>)
    ensures
        match r {
            Some(n) => tuple_arity_of(*ty) == Some(n as nat),
            None => tuple_arity_of(*ty) is None,
        },
{
    match ty {
        specta::DataType::Tuple(t) => Some(t.elements().len()),
        _ => None,
    }
}

/// Relies on `Typescript::new` and `Typescript::bigint` with
/// `BigIntExportBehavior::FailWithReason(reason)`.
#[verifier::external_body]
pub(crate) fn bindings_config(reason: &'static str) -> (r: specta_typescript::Typescript)
    ensures
        r == config_refusing_bigint(reason@),
{
    specta_typescript::Typescript::new().bigint(
        specta_typescript::BigIntExportBehavior::FailWithReason(reason),
    )
}

/// Relies on `specta_typescript::datatype` with `FunctionResultVariant::Value`:
/// the inline text of `ty`, or the exporter's error message.
#[verifier::external_body]
pub(crate) fn render_type(
    conf: &specta_typescript::Typescript,
    ty: &specta::DataType,
    types: &specta::TypeCollection,
) -> (r: Result<String, String>)
    requires
        ts_inline(*conf, *ty, *types) is Some,
    ensures
        ts_inline(*conf, *ty, *types) == Some(
            match r {
                Ok(s) => Ok::<Seq<char>, Seq<char>>(s@),
                Err(e) => Err::<Seq<char>, Seq<char>>(e@),
            },
        ),
{
    let value = specta::datatype::FunctionResultVariant::Value(ty.clone());
    specta_typescript::datatype(conf, &value, types).map_err(|e| e.to_string())
}

/// Relies on `specta_typescript::export_named_datatype`: the declaration of
/// `ty`, or the exporter's error message.
#[verifier::external_body]
pub(crate) fn render_declaration(
    conf: &specta_typescript::Typescript,
    ty: &specta::datatype::NamedDataType,
    types: &specta::TypeCollection,
) -> (r: Result<String, String>)
    requires
        ts_declaration(*conf, *ty, *types) is Some,
    ensures
        ts_declaration(*conf, *ty, *types) == Some(
            match r {
                Ok(s) => Ok::<Seq<char>, Seq<char>>(s@),
                Err(e) => Err::<Seq<char>, Seq<char>>(e@),
            },
        ),
{
    specta_typescript::export_named_datatype(conf, ty, types).map_err(|e| e.to_string())
}

/// Relies on `IntoIterator for &TypeCollection`: a copy of each named type,
/// in the collection's order.
#[verifier::external_body]
pub(crate) fn named_types(types: &specta::TypeCollection) -> (r: Vec<
    specta::datatype::NamedDataType,
>)
    ensures
        r@ == named_types_of(*types),
{
    types.into_iter().map(|(_, ty)| ty.clone()).collect()
}

/// Relies on `TypeCollection::default`: a collection with no named types.
#[verifier::external_body]
pub(crate) fn empty_types() -> (r: specta::TypeCollection)
    ensures
        named_types_of(r).len() == 0,
{
    specta::TypeCollection::default()
}

/// Relies on `TypeCollection::extend`: every named type of `from` is added to
/// `into`, replacing one of the same identity; into an empty collection, the
/// result hands out what `from` does.
#[verifier::external_body]
pub(crate) fn absorb_types(into: &mut specta::TypeCollection, from: &specta::TypeCollection)
    ensures
        forall|t: specta::datatype::NamedDataType| #[trigger]
            named_types_of(*from).contains(t) ==> named_types_of(*final(into)).contains(t),
        named_types_of(*old(into)).len() == 0 ==> named_types_of(*final(into)) == named_types_of(
            *from,
        ),
{
    into.extend(from);
}

} // verus!
