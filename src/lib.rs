//! A procedure registry for a typed remote-call API: named operations are
//! composed into namespaced routers, validated for unique paths, dispatched by
//! kind and key, and described as a TypeScript binding document.
pub mod error;
pub mod export;
pub mod legacy;
pub mod path;
pub mod reflect;
pub mod router;
