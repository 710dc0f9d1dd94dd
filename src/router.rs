//! The composable router: procedures keyed by path, nested under prefixes and
//! merged, with composition errors collected until `build`.
use vstd::prelude::*;
use specta::datatype::NamedDataType;
use specta::{DataType, TypeCollection};
use crate::error::{error_path, error_paths, Error};
use crate::legacy::{keys_sorted, Procedure, Router};
use crate::path::{
    copy_path, get_flattened_name, join_dot, key_less, key_lt, lemma_key_order, lemma_path_order,
    path_less, path_lt, path_view, prefixed, same_path,
};
use crate::reflect::{absorb_types, empty_types, named_types_of};

verus! {

/// What a procedure is for: reading, writing, or an ongoing stream.
#[derive(Clone, Copy, Debug, PartialEq, Eq, Structural)]
pub enum ProcedureKind {
    Query,
    Mutation,
    Subscription,
}

/// One procedure before it is registered: its kind, the descriptors of its
/// input and result, the named types those refer to, and its handler.
pub struct Procedure2<H> {
    pub kind: ProcedureKind,
    pub input: DataType,
    pub result: DataType,
    pub types: TypeCollection,
    pub handler: H,
}

/// A deferred initialiser, run by `build` against the shared state.
pub trait Setup<St>: Sized {
    /// Whether running this initialiser may take `before` to `after`.
    spec fn ran(self, before: St, after: St) -> bool;

    fn run(self, state: &mut St)
        ensures
            self.ran(*old(state), *final(state)),
    ;
}

/// Running the initialisers `fs`, each once and in order, may take `first`
/// to `last`.
pub open spec fn ran_in_order<St, S: Setup<St>>(fs: Seq<S>, first: St, last: St) -> bool
    decreases fs.len(),
{
    if fs.len() == 0 {
        last == first
    } else {
        exists|mid: St| ran_in_order(fs.drop_last(), first, mid) && fs.last().ran(mid, last)
    }
}

/// The paths of a sequence of entries.
pub open spec fn entry_paths<H>(es: Seq<(Vec<String>, Procedure2<H>)>) -> Seq<Seq<Seq<char>>> {
    es.map_values(|e: (Vec<String>, Procedure2<H>)| path_view(&e.0))
}

/// The procedures of a sequence of entries.
pub open spec fn entry_procedures<H>(es: Seq<(Vec<String>, Procedure2<H>)>) -> Seq<Procedure2<H>> {
    es.map_values(|e: (Vec<String>, Procedure2<H>)| e.1)
}

/// Every path is non-empty and no two are equal.
pub open spec fn paths_valid(ps: Seq<Seq<Seq<char>>>) -> bool {
    &&& forall|i: int| 0 <= i < ps.len() ==> #[trigger] ps[i].len() > 0
    &&& ps.no_duplicates()
}

/// Some path starts with the segment `key`.
pub open spec fn has_top(ps: Seq<Seq<Seq<char>>>, key: Seq<char>) -> bool {
    exists|i: int| 0 <= i < ps.len() && ps[i].len() > 0 && #[trigger] ps[i][0] == key
}

/// Each path with `pre` put in front.
pub open spec fn prefix_all(pre: Seq<char>, ps: Seq<Seq<Seq<char>>>) -> Seq<Seq<Seq<char>>> {
    ps.map_values(|p: Seq<Seq<char>>| seq![pre] + p)
}

/// The paths of `theirs` that `ours` also holds, in the order of `theirs`.
pub open spec fn shared(ours: Seq<Seq<Seq<char>>>, theirs: Seq<Seq<Seq<char>>>) -> Seq<
    Seq<Seq<char>>,
>
    decreases theirs.len(),
{
    if theirs.len() == 0 {
        seq![]
    } else if ours.contains(theirs.last()) {
        shared(ours, theirs.drop_last()).push(theirs.last())
    } else {
        shared(ours, theirs.drop_last())
    }
}

/// Prefixing every path of a valid set with a segment that no path of `ours`
/// starts with gives paths that are distinct from `ours` and from each other.
proof fn lemma_nest_valid(ours: Seq<Seq<Seq<char>>>, theirs: Seq<Seq<Seq<char>>>, pre: Seq<char>)
    requires
        paths_valid(ours),
        paths_valid(theirs),
        !has_top(ours, pre),
    ensures
        paths_valid(ours + prefix_all(pre, theirs)),
{
    let all = ours + prefix_all(pre, theirs);
    let n = ours.len();
    assert forall|i: int| 0 <= i < all.len() implies #[trigger] all[i].len() > 0 by {
        if i >= n {
            assert(all[i] == seq![pre] + theirs[i - n]);
        }
    }
    assert forall|i: int, j: int| 0 <= i < j < all.len() implies all[i] != all[j] by {
        if j >= n {
            assert(all[j] == seq![pre] + theirs[j - n]);
            assert(all[j][0] == pre);
            if i >= n {
                assert(all[i] == seq![pre] + theirs[i - n]);
                if all[i] == all[j] {
                    assert(theirs[i - n] =~= all[i].subrange(1, all[i].len() as int));
                    assert(theirs[j - n] =~= all[j].subrange(1, all[j].len() as int));
                }
            } else {
                assert(ours[i].len() > 0);
                if all[i] == all[j] {
                    assert(ours[i][0] == pre);
                }
            }
        }
    }
}

/// `shared` is empty exactly when no path of `theirs` is among `ours`.
proof fn lemma_shared_empty(ours: Seq<Seq<Seq<char>>>, theirs: Seq<Seq<Seq<char>>>)
    ensures
        shared(ours, theirs).len() == 0 <==> forall|j: int|
            0 <= j < theirs.len() ==> !ours.contains(#[trigger] theirs[j]),
    decreases theirs.len(),
{
    if theirs.len() > 0 {
        lemma_shared_empty(ours, theirs.drop_last());
        if shared(ours, theirs).len() == 0 {
            assert forall|j: int| 0 <= j < theirs.len() implies !ours.contains(#[trigger] theirs[j]) by {
                if j < theirs.len() - 1 {
                    assert(theirs[j] == theirs.drop_last()[j]);
                }
            }
        } else {
            if !ours.contains(theirs.last()) {
                let k = choose|k: int| 0 <= k < theirs.drop_last().len() && ours.contains(
                    #[trigger] theirs.drop_last()[k],
                );
                assert(theirs[k] == theirs.drop_last()[k]);
            }
        }
    }
}

/// Two valid path sequences with nothing in common join into a valid one.
proof fn lemma_merge_valid(ours: Seq<Seq<Seq<char>>>, theirs: Seq<Seq<Seq<char>>>)
    requires
        paths_valid(ours),
        paths_valid(theirs),
        shared(ours, theirs).len() == 0,
    ensures
        paths_valid(ours + theirs),
{
    lemma_shared_empty(ours, theirs);
    let all = ours + theirs;
    let n = ours.len();
    assert forall|i: int| 0 <= i < all.len() implies #[trigger] all[i].len() > 0 by {
        if i >= n {
            assert(all[i] == theirs[i - n]);
        }
    }
    assert forall|i: int, j: int| 0 <= i < j < all.len() implies all[i] != all[j] by {
        if j >= n {
            assert(all[j] == theirs[j - n]);
            if i < n {
                assert(!ours.contains(theirs[j - n]));
            }
        }
    }
}

/// `op` is what `build` makes of the entry `e`.
#[verifier::opaque]
pub open spec fn built_entry<H>(op: Procedure<H>, e: (Vec<String>, Procedure2<H>)) -> bool {
    &&& path_view(&op.path) == path_view(&e.0)
    &&& op.key@ == join_dot(path_view(&e.0))
    &&& op.kind == e.1.kind
    &&& op.input == e.1.input
    &&& op.result == e.1.result
    &&& op.handler == e.1.handler
}

/// Each of `ops` comes from one of the first `k` entries, and each of those
/// entries gives one of `ops`.
#[verifier::opaque]
pub open spec fn corresponds<H>(
    ops: Seq<Procedure<H>>,
    entries: Seq<(Vec<String>, Procedure2<H>)>,
    k: int,
) -> bool {
    &&& forall|i: int|
        #![trigger ops[i]]
        0 <= i < ops.len() ==> exists|e: int| 0 <= e < k && built_entry(ops[i], entries[e])
    &&& forall|e: int|
        #![trigger entries[e]]
        0 <= e < k ==> exists|i: int| 0 <= i < ops.len() && built_entry(ops[i], entries[e])
}

/// `ops` is what `build` makes of `entries`, one for one: each built
/// procedure comes from an entry and each entry gives a built procedure.
pub open spec fn built_from<H>(ops: Seq<Procedure<H>>, entries: Seq<(Vec<String>, Procedure2<H>)>) -> bool {
    &&& ops.len() == entries.len()
    &&& corresponds(ops, entries, entries.len() as int)
}

/// A path is among `shared(ours, theirs)` exactly when both hold it, and
/// `shared` repeats no path when `theirs` repeats none.
proof fn lemma_shared_members(ours: Seq<Seq<Seq<char>>>, theirs: Seq<Seq<Seq<char>>>)
    ensures
        forall|x: Seq<Seq<char>>|
            #[trigger] shared(ours, theirs).contains(x) <==> ours.contains(x) && theirs.contains(x),
        theirs.no_duplicates() ==> shared(ours, theirs).no_duplicates(),
    decreases theirs.len(),
{
    if theirs.len() > 0 {
        let init = theirs.drop_last();
        lemma_shared_members(ours, init);
        assert forall|x: Seq<Seq<char>>| theirs.contains(x) <==> init.contains(x) || x
            == theirs.last() by {
            if theirs.contains(x) {
                let i = choose|i: int| 0 <= i < theirs.len() && theirs[i] == x;
                if i < theirs.len() - 1 {
                    assert(init[i] == x);
                }
            }
            if init.contains(x) {
                let i = choose|i: int| 0 <= i < init.len() && init[i] == x;
                assert(theirs[i] == x);
            }
            if x == theirs.last() {
                assert(theirs[theirs.len() - 1] == x);
            }
        }
        assert forall|x: Seq<Seq<char>>|
            #[trigger] shared(ours, theirs).contains(x) <==> ours.contains(x) && theirs.contains(
                x,
            ) by {
            let sh0 = shared(ours, init);
            if ours.contains(theirs.last()) {
                let sh = sh0.push(theirs.last());
                if sh.contains(x) {
                    let i = choose|i: int| 0 <= i < sh.len() && sh[i] == x;
                    if i < sh0.len() {
                        assert(sh0[i] == x);
                    }
                }
                if sh0.contains(x) {
                    let i = choose|i: int| 0 <= i < sh0.len() && sh0[i] == x;
                    assert(sh[i] == x);
                }
                if x == theirs.last() {
                    assert(sh[sh0.len() as int] == x);
                }
            }
        }
        if theirs.no_duplicates() {
            assert(init.no_duplicates());
            if ours.contains(theirs.last()) {
                assert(!init.contains(theirs.last())) by {
                    if init.contains(theirs.last()) {
                        let i = choose|i: int| 0 <= i < init.len() && init[i] == theirs.last();
                        assert(theirs[i] == theirs[theirs.len() - 1]);
                    }
                }
                assert(!shared(ours, init).contains(theirs.last()));
                let sh = shared(ours, theirs);
                assert forall|i: int, j: int| 0 <= i < j < sh.len() implies sh[i] != sh[j] by {
                    if j == sh.len() - 1 {
                        assert(shared(ours, init).contains(sh[i]) ==> sh[i] != theirs.last());
                        assert(sh[i] == shared(ours, init)[i]);
                    } else {
                        assert(sh[i] == shared(ours, init)[i]);
                        assert(sh[j] == shared(ours, init)[j]);
                    }
                }
            }
        }
    }
}

/// Merging two error-free routers whose full paths are disjoint records no
/// error, and the merged router holds exactly the paths of both.
pub proof fn lemma_merge_disjoint<H, S>(a: Router2<H, S>, b: Router2<H, S>)
    requires
        a.wf(),
        b.wf(),
        a.errors().len() == 0,
        b.errors().len() == 0,
        forall|j: int| 0 <= j < b.paths().len() ==> !a.paths().contains(#[trigger] b.paths()[j]),
    ensures
        shared(a.paths(), b.paths()).len() == 0,
        (a.errors() + b.errors()).len() == 0,
        paths_valid(a.paths() + b.paths()),
        (a.paths() + b.paths()).to_set() == a.paths().to_set().union(b.paths().to_set()),
{
    lemma_shared_empty(a.paths(), b.paths());
    lemma_merge_valid(a.paths(), b.paths());
    assert((a.paths() + b.paths()).to_set() =~= a.paths().to_set().union(b.paths().to_set())) by {
        assert forall|x: Seq<Seq<char>>| (a.paths() + b.paths()).contains(x) <==> a.paths().contains(x)
            || b.paths().contains(x) by {
            let all = a.paths() + b.paths();
            if all.contains(x) {
                let i = choose|i: int| 0 <= i < all.len() && all[i] == x;
                if i >= a.paths().len() {
                    assert(b.paths()[i - a.paths().len()] == x);
                }
            }
            if a.paths().contains(x) {
                let i = choose|i: int| 0 <= i < a.paths().len() && a.paths()[i] == x;
                assert(all[i] == x);
            }
            if b.paths().contains(x) {
                let i = choose|i: int| 0 <= i < b.paths().len() && b.paths()[i] == x;
                assert(all[a.paths().len() + i] == x);
            }
        }
    }
}

/// Merging two routers that share a full path reports one error per shared
/// path, in ascending order: the reported paths repeat none and are exactly
/// the paths that both hold.
pub proof fn lemma_merge_overlap<H, S>(a: Router2<H, S>, b: Router2<H, S>, d: Seq<Seq<Seq<char>>>)
    requires
        a.wf(),
        b.wf(),
        exists|j: int| 0 <= j < b.paths().len() && a.paths().contains(#[trigger] b.paths()[j]),
        ascending_shared(d, a.paths(), b.paths()),
    ensures
        shared(a.paths(), b.paths()).len() > 0,
        d.len() > 0,
        paths_ascending(d),
        d.no_duplicates(),
        d.to_set() == a.paths().to_set().intersect(b.paths().to_set()),
{
    lemma_shared_empty(a.paths(), b.paths());
    lemma_shared_members(a.paths(), b.paths());
    assert(d.to_set() =~= a.paths().to_set().intersect(b.paths().to_set()));
}

/// Nesting puts the prefix in front of every path of the nested router.
pub proof fn lemma_nest_prefixes(pre: Seq<char>, theirs: Seq<Seq<Seq<char>>>)
    ensures
        prefix_all(pre, theirs).len() == theirs.len(),
        forall|i: int|
            0 <= i < theirs.len() ==> #[trigger] prefix_all(pre, theirs)[i] == seq![pre] + theirs[i],
{
}

/// After a successful nest of a non-empty router under `pre`, a second nest
/// under `pre` fails, whatever the inner paths; after a nest of an empty
/// router it does not.
pub proof fn lemma_nest_twice(ours: Seq<Seq<Seq<char>>>, theirs: Seq<Seq<Seq<char>>>, pre: Seq<char>)
    requires
        !has_top(ours, pre),
    ensures
        theirs.len() > 0 ==> has_top(ours + prefix_all(pre, theirs), pre),
        theirs.len() == 0 ==> !has_top(ours + prefix_all(pre, theirs), pre),
{
    let all = ours + prefix_all(pre, theirs);
    if theirs.len() > 0 {
        assert(all[ours.len() as int] == seq![pre] + theirs[0]);
        assert(all[ours.len() as int][0] == pre);
    } else {
        assert(all =~= ours);
    }
}

/// Inserting a procedure at the first place whose key is greater keeps the
/// keys in order.
proof fn lemma_insert_sorted<H>(prev: Seq<Procedure<H>>, pos: int, op: Procedure<H>)
    requires
        0 <= pos <= prev.len(),
        keys_sorted(prev),
        forall|j: int| 0 <= j < pos ==> !key_lt(op.key@, #[trigger] prev[j].key@),
        pos < prev.len() ==> key_lt(op.key@, prev[pos].key@),
    ensures
        keys_sorted(prev.insert(pos, op)),
{
    let cur = prev.insert(pos, op);
    if pos < prev.len() {
        lemma_key_order(op.key@, prev[pos].key@);
    }
    assert forall|i: int| 0 <= i < cur.len() - 1 implies !key_lt(#[trigger] cur[i + 1].key@, cur[i].key@) by {
        if i + 1 < pos {
            assert(cur[i] == prev[i] && cur[i + 1] == prev[i + 1]);
        } else if i + 1 == pos {
            assert(cur[i] == prev[i]);
        } else if i == pos {
            assert(cur[i + 1] == prev[i]);
        } else {
            assert(cur[i] == prev[i - 1] && cur[i + 1] == prev[i]);
            assert(prev[(i - 1) + 1] == prev[i]);
            assert(!key_lt(prev[(i - 1) + 1].key@, prev[i - 1].key@));
        }
    }
}

/// Inserting what `build` makes of entry `k` keeps the correspondence with
/// the entries taken so far.
#[verifier::rlimit(100)]
proof fn lemma_insert_corresponds<H>(
    prev: Seq<Procedure<H>>,
    pos: int,
    op: Procedure<H>,
    entries: Seq<(Vec<String>, Procedure2<H>)>,
    k: int,
)
    requires
        0 <= pos <= prev.len(),
        0 <= k < entries.len(),
        built_entry(op, entries[k]),
        corresponds(prev, entries, k),
    ensures
        corresponds(prev.insert(pos, op), entries, k + 1),
{
    reveal(corresponds);
    let cur = prev.insert(pos, op);
    assert forall|i: int|
        #![trigger cur[i]]
        0 <= i < cur.len() implies exists|e: int| 0 <= e < k + 1 && built_entry(cur[i], entries[e]) by {
        if i < pos {
            assert(cur[i] == prev[i]);
            let e = choose|e: int| 0 <= e < k && built_entry(prev[i], entries[e]);
            assert(0 <= e < k + 1 && built_entry(cur[i], entries[e]));
        } else if i == pos {
            assert(0 <= k < k + 1 && built_entry(cur[i], entries[k]));
        } else {
            assert(cur[i] == prev[i - 1]);
            let e = choose|e: int| 0 <= e < k && built_entry(prev[i - 1], entries[e]);
            assert(0 <= e < k + 1 && built_entry(cur[i], entries[e]));
        }
    }
    assert forall|e: int|
        #![trigger entries[e]]
        0 <= e < k + 1 implies exists|i: int| 0 <= i < cur.len() && built_entry(cur[i], entries[e]) by {
        if e < k {
            let i = choose|i: int| 0 <= i < prev.len() && built_entry(prev[i], entries[e]);
            if i < pos {
                assert(cur[i] == prev[i]);
                assert(0 <= i < cur.len() && built_entry(cur[i], entries[e]));
            } else {
                assert(cur[i + 1] == prev[i]);
                assert(0 <= i + 1 < cur.len() && built_entry(cur[i + 1], entries[e]));
            }
        } else {
            assert(cur[pos] == op);
            assert(0 <= pos < cur.len() && built_entry(cur[pos], entries[e]));
        }
    }
}

/// Each path comes strictly before the next.
pub open spec fn paths_ascending(d: Seq<Seq<Seq<char>>>) -> bool {
    forall|i: int| 0 <= i < d.len() - 1 ==> path_lt(#[trigger] d[i], d[i + 1])
}

/// `d` is `shared(ours, theirs)` in ascending order: the same paths, each once.
pub open spec fn ascending_shared(
    d: Seq<Seq<Seq<char>>>,
    ours: Seq<Seq<Seq<char>>>,
    theirs: Seq<Seq<Seq<char>>>,
) -> bool {
    &&& paths_ascending(d)
    &&& d.no_duplicates()
    &&& d.len() == shared(ours, theirs).len()
    &&& forall|x: Seq<Seq<char>>| #[trigger] d.contains(x) <==> shared(ours, theirs).contains(x)
}

/// Inserting a new path at the first place whose path is greater keeps the
/// paths ascending and distinct.
#[verifier::rlimit(100)]
proof fn lemma_insert_ascending(d: Seq<Seq<Seq<char>>>, pos: int, x: Seq<Seq<char>>)
    requires
        0 <= pos <= d.len(),
        paths_ascending(d),
        d.no_duplicates(),
        !d.contains(x),
        forall|j: int| 0 <= j < pos ==> !path_lt(x, #[trigger] d[j]),
        pos < d.len() ==> path_lt(x, d[pos]),
    ensures
        paths_ascending(d.insert(pos, x)),
        d.insert(pos, x).no_duplicates(),
        d.insert(pos, x).len() == d.len() + 1,
        forall|y: Seq<Seq<char>>| #[trigger] d.insert(pos, x).contains(y) <==> d.contains(y) || y == x,
{
    let c = d.insert(pos, x);
    if pos > 0 {
        assert(d[pos - 1] != x);
        lemma_path_order(d[pos - 1], x);
    }
    assert forall|i: int| 0 <= i < c.len() - 1 implies path_lt(#[trigger] c[i], c[i + 1]) by {
        if i + 1 < pos {
            assert(c[i] == d[i] && c[i + 1] == d[i + 1]);
        } else if i + 1 == pos {
            assert(c[i] == d[i]);
        } else if i == pos {
            assert(c[i + 1] == d[i]);
        } else {
            assert(c[i] == d[i - 1] && c[i + 1] == d[i]);
            assert(d[(i - 1) + 1] == d[i]);
        }
    }
    assert forall|i: int, j: int| 0 <= i < j < c.len() implies c[i] != c[j] by {
        if j < pos {
            assert(c[i] == d[i] && c[j] == d[j]);
        } else if j == pos {
            assert(c[i] == d[i]);
        } else if i < pos {
            assert(c[i] == d[i] && c[j] == d[j - 1]);
        } else if i == pos {
            assert(c[j] == d[j - 1]);
        } else {
            assert(c[i] == d[i - 1] && c[j] == d[j - 1]);
        }
    }
    assert forall|y: Seq<Seq<char>>| #[trigger] c.contains(y) <==> d.contains(y) || y == x by {
        if c.contains(y) {
            let i = choose|i: int| 0 <= i < c.len() && c[i] == y;
            if i < pos {
                assert(d[i] == y);
            } else if i > pos {
                assert(d[i - 1] == y);
            }
        }
        if d.contains(y) {
            let i = choose|i: int| 0 <= i < d.len() && d[i] == y;
            if i < pos {
                assert(c[i] == y);
            } else {
                assert(c[i + 1] == y);
            }
        }
        if y == x {
            assert(c[pos] == y);
        }
    }
}

/// The path that a composition error names.
fn error_path_of(e: &Error) -> (r: &Vec<String>)
    ensures
        path_view(r) == error_path(*e),
{
    match e {
        Error::DuplicateProcedures(p) => p,
    }
}

/// A router under construction.
pub struct Router2<H, S> {
    setup: Vec<S>,
    types: TypeCollection,
    procedures: Vec<(Vec<String>, Procedure2<H>)>,
    errors: Vec<Error>,
}

impl<H, S> Router2<H, S> {
    /// The registered procedures with their paths, in order of registration.
    pub closed spec fn entries(&self) -> Seq<(Vec<String>, Procedure2<H>)> {
        self.procedures@
    }

    /// The registered paths, in order of registration.
    pub open spec fn paths(&self) -> Seq<Seq<Seq<char>>> {
        entry_paths(self.entries())
    }

    /// The composition errors collected so far, in order.
    pub closed spec fn errors(&self) -> Seq<Error> {
        self.errors@
    }

    /// The deferred initialisers, in order of registration.
    pub closed spec fn pending_setup(&self) -> Seq<S> {
        self.setup@
    }

    /// The named types that the registered procedures refer to.
    pub closed spec fn types(&self) -> TypeCollection {
        self.types
    }

    pub open spec fn wf(&self) -> bool {
        paths_valid(self.paths())
    }

    /// An empty router.
    pub fn new() -> (r: Self)
        ensures
            r.wf(),
            r.entries().len() == 0,
            r.errors().len() == 0,
            r.pending_setup().len() == 0,
            named_types_of(r.types()).len() == 0,
    {
        let r = Router2 {
            setup: Vec::new(),
            types: empty_types(),
            procedures: Vec::new(),
            errors: Vec::new(),
        };
        assert(r.paths() =~= seq![]);
        r
    }

    /// The registered paths, in order of registration.
    pub fn keys(&self) -> (r: Vec<Vec<String>>)
        ensures
            r@.len() == self.paths().len(),
            forall|i: int| 0 <= i < r@.len() ==> path_view(&#[trigger] r@[i]) == self.paths()[i],
    {
        let mut r: Vec<Vec<String>> = Vec::new();
        let mut i: usize = 0;
        while i < self.procedures.len()
            invariant
                i <= self.procedures.len(),
                r@.len() == i,
                forall|j: int| 0 <= j < i ==> path_view(&#[trigger] r@[j]) == self.paths()[j],
            decreases self.procedures.len() - i,
        {
            let p = copy_path(&self.procedures[i].0);
            let ghost prev = r@;
            r.push(p);
            assert forall|j: int| 0 <= j < i + 1 implies path_view(&#[trigger] r@[j]) == self.paths()[j] by {
                if j < i {
                    assert(r@[j] == prev[j]);
                }
            }
            i = i + 1;
        }
        r
    }

    /// Whether some registered path starts with the segment `key`.
    fn has_top_level(&self, key: &String) -> (r: bool)
        requires
            self.wf(),
        ensures
            r == has_top(self.paths(), key@),
    {
        let mut i: usize = 0;
        while i < self.procedures.len()
            invariant
                self.wf(),
                i <= self.procedures.len(),
                forall|j: int| 0 <= j < i ==> #[trigger] self.paths()[j][0] != key@,
            decreases self.procedures.len() - i,
        {
            assert(self.paths()[i as int].len() > 0);
            if self.procedures[i].0[0] == *key {
                assert(self.paths()[i as int][0] == key@);
                return true;
            }
            i = i + 1;
        }
        false
    }

    /// Registers `procedure` under the one-segment path `key`. Where some path
    /// already starts with `key`, the procedure is dropped and a
    /// `DuplicateProcedures([key])` error is recorded instead.
    pub fn procedure(self, key: String, procedure: Procedure2<H>) -> (r: Self)
        requires
            self.wf(),
        ensures
            r.wf(),
            r.pending_setup() == self.pending_setup(),
            has_top(self.paths(), key@) ==> {
                &&& r.entries() == self.entries()
                &&& r.errors().len() == self.errors().len() + 1
                &&& error_paths(r.errors()) == error_paths(self.errors()).push(seq![key@])
            },
            !has_top(self.paths(), key@) ==> {
                &&& r.entries().len() == self.entries().len() + 1
                &&& r.paths() == self.paths().push(seq![key@])
                &&& entry_procedures(r.entries()) == entry_procedures(self.entries()).push(
                    procedure,
                )
                &&& r.errors() == self.errors()
                &&& forall|t: NamedDataType| #[trigger]
                    named_types_of(procedure.types).contains(t) ==> named_types_of(r.types()).contains(t)
            },
    {
        let ghost before = self;
        let mut this = self;
        if this.has_top_level(&key) {
            let mut p: Vec<String> = Vec::new();
            p.push(key);
            let e = Error::DuplicateProcedures(p);
            assert(error_path(e) =~= seq![key@]);
            this.errors.push(e);
            assert(error_paths(this.errors@) =~= error_paths(before.errors@).push(seq![key@]));
            this
        } else {
            absorb_types(&mut this.types, &procedure.types);
            let mut p: Vec<String> = Vec::new();
            p.push(key);
            assert(path_view(&p) =~= seq![key@]);
            this.procedures.push((p, procedure));
            proof {
                let ps = this.paths();
                assert(ps =~= before.paths().push(seq![key@]));
                assert forall|i: int, j: int| 0 <= i < j < ps.len() implies ps[i] != ps[j] by {
                    if j == ps.len() - 1 {
                        assert(ps[i].len() > 0);
                        assert(ps[i] == before.paths()[i]);
                        if ps[i] == ps[j] {
                            assert(ps[i][0] == key@);
                        }
                    }
                }
                assert(entry_procedures(this.entries()) =~= entry_procedures(before.entries()).push(procedure));
            }
            this
        }
    }

    /// Adds a deferred initialiser; `build` runs them in the order added.
    pub fn setup(self, func: S) -> (r: Self)
        requires
            self.wf(),
        ensures
            r.wf(),
            r.entries() == self.entries(),
            r.errors() == self.errors(),
            r.pending_setup() == self.pending_setup().push(func),
    {
        let mut this = self;
        this.setup.push(func);
        this
    }

    /// Whether `p` is one of the registered paths.
    fn contains_path(&self, p: &Vec<String>) -> (r: bool)
        ensures
            r == self.paths().contains(path_view(p)),
    {
        let mut i: usize = 0;
        while i < self.procedures.len()
            invariant
                i <= self.procedures.len(),
                forall|j: int| 0 <= j < i ==> #[trigger] self.paths()[j] != path_view(p),
            decreases self.procedures.len() - i,
        {
            if same_path(&self.procedures[i].0, p) {
                assert(self.paths()[i as int] == path_view(p));
                return true;
            }
            i = i + 1;
        }
        false
    }

    /// Absorbs every procedure of `other` under `prefix`. Only the top-level
    /// segment is checked: where some path already starts with `prefix`,
    /// `other` is dropped and `DuplicateProcedures([prefix])` is recorded.
    /// Otherwise the initialisers of `other` follow those of `self`, and its
    /// errors are kept with `prefix` put in front of their paths.
    pub fn nest(self, prefix: String, other: Self) -> (r: Self)
        requires
            self.wf(),
            other.wf(),
        ensures
            r.wf(),
            has_top(self.paths(), prefix@) ==> {
                &&& r.entries() == self.entries()
                &&& r.pending_setup() == self.pending_setup()
                &&& r.errors().len() == self.errors().len() + 1
                &&& error_paths(r.errors()) == error_paths(self.errors()).push(seq![prefix@])
            },
            !has_top(self.paths(), prefix@) ==> {
                &&& r.paths() == self.paths() + prefix_all(prefix@, other.paths())
                &&& entry_procedures(r.entries()) == entry_procedures(self.entries())
                    + entry_procedures(other.entries())
                &&& r.pending_setup() == self.pending_setup() + other.pending_setup()
                &&& error_paths(r.errors()) == error_paths(self.errors()) + prefix_all(
                    prefix@,
                    error_paths(other.errors()),
                )
                &&& forall|t: NamedDataType| #[trigger]
                    named_types_of(other.types()).contains(t) ==> named_types_of(r.types()).contains(t)
            },
    {
        let ghost before = self;
        let ghost given = other;
        let mut this = self;
        let mut other = other;
        if this.has_top_level(&prefix) {
            let mut p: Vec<String> = Vec::new();
            p.push(prefix);
            let e = Error::DuplicateProcedures(p);
            assert(error_path(e) =~= seq![prefix@]);
            this.errors.push(e);
            assert(error_paths(this.errors@) =~= error_paths(before.errors@).push(seq![prefix@]));
            return this;
        }
        let ghost their_setup = other.setup@;
        this.setup.append(&mut other.setup);
        absorb_types(&mut this.types, &other.types);
        let ghost absorbed = this.types;
        let ghost theirs = other.procedures@;
        let ghost n = theirs.len();
        let ghost k: int = 0;
        while other.procedures.len() > 0
            invariant
                0 <= k <= n,
                n == theirs.len(),
                other.procedures@ == theirs.subrange(k, n as int),
                entry_paths(this.procedures@) == before.paths() + prefix_all(
                    prefix@,
                    entry_paths(theirs.subrange(0, k)),
                ),
                entry_procedures(this.procedures@) == entry_procedures(before.procedures@)
                    + entry_procedures(theirs.subrange(0, k)),
                this.errors@ == before.errors@,
                other.errors@ == given.errors@,
                this.types == absorbed,
                other.types == given.types,
                this.setup@ == before.setup@ + their_setup,
            decreases other.procedures.len(),
        {
            let (p, proc) = other.procedures.remove(0);
            let q = prefixed(&prefix, &p);
            let ghost prev = this.procedures@;
            this.procedures.push((q, proc));
            proof {
                assert(theirs[k] == (p, proc));
                assert(theirs.subrange(0, k + 1) =~= theirs.subrange(0, k).push((p, proc)));
                assert(entry_paths(this.procedures@) =~= entry_paths(prev).push(path_view(&q)));
                assert(entry_paths(theirs.subrange(0, k + 1)) =~= entry_paths(theirs.subrange(0, k)).push(path_view(&p)));
                assert(entry_procedures(this.procedures@) =~= entry_procedures(prev).push(proc));
                assert(entry_procedures(theirs.subrange(0, k + 1)) =~= entry_procedures(theirs.subrange(0, k)).push(proc));
                assert(other.procedures@ =~= theirs.subrange(k + 1, n as int));
                k = k + 1;
            }
        }
        proof {
            assert(theirs.subrange(0, n as int) =~= theirs);
            lemma_nest_valid(before.paths(), entry_paths(theirs), prefix@);
        }
        let ghost their_errors = other.errors@;
        let ghost old_procs = this.procedures@;
        let ghost m = their_errors.len();
        let ghost k: int = 0;
        while other.errors.len() > 0
            invariant
                0 <= k <= m,
                m == their_errors.len(),
                other.errors@ == their_errors.subrange(k, m as int),
                error_paths(this.errors@) == error_paths(before.errors@) + prefix_all(
                    prefix@,
                    error_paths(their_errors.subrange(0, k)),
                ),
                this.setup@ == before.setup@ + their_setup,
                this.procedures@ == old_procs,
                this.types == absorbed,
            decreases other.errors.len(),
        {
            let e = other.errors.remove(0);
            let ghost prev = this.errors@;
            match e {
                Error::DuplicateProcedures(p) => {
                    let q = prefixed(&prefix, &p);
                    this.errors.push(Error::DuplicateProcedures(q));
                    proof {
                        assert(their_errors[k] == Error::DuplicateProcedures(p));
                        assert(their_errors.subrange(0, k + 1) =~= their_errors.subrange(0, k).push(Error::DuplicateProcedures(p)));
                        assert(error_paths(this.errors@) =~= error_paths(prev).push(path_view(&q)));
                        assert(error_paths(their_errors.subrange(0, k + 1)) =~= error_paths(their_errors.subrange(0, k)).push(path_view(&p)));
                    }
                },
            }
            proof {
                assert(other.errors@ =~= their_errors.subrange(k + 1, m as int));
                k = k + 1;
            }
        }
        assert(their_errors.subrange(0, m as int) =~= their_errors);
        assert(theirs == given.entries());
        assert(their_errors == given.errors());
        assert(their_setup == given.pending_setup());
        assert(this.paths() == before.paths() + prefix_all(prefix@, given.paths()));
        assert(entry_procedures(this.entries()) == entry_procedures(before.entries()) + entry_procedures(given.entries()));
        this
    }

    /// Absorbs every procedure of `other` at the same paths. Every full path of
    /// `other` that `self` already holds is reported as one
    /// `DuplicateProcedures` error, in the order of `other`, and then none of
    /// the procedures or initialisers of `other` is taken. Otherwise its procedures, initialisers and errors
    /// follow those of `self`. Either way the errors of `other` come last.
    pub fn merge(self, other: Self) -> (r: Self)
        requires
            self.wf(),
            other.wf(),
        ensures
            r.wf(),
            shared(self.paths(), other.paths()).len() > 0 ==> {
                &&& r.entries() == self.entries()
                &&& r.pending_setup() == self.pending_setup()
                &&& exists|d: Seq<Seq<Seq<char>>>|
                    #![trigger ascending_shared(d, self.paths(), other.paths())]
                    ascending_shared(d, self.paths(), other.paths()) && error_paths(r.errors())
                        == error_paths(self.errors()) + d + error_paths(other.errors())
            },
            shared(self.paths(), other.paths()).len() == 0 ==> {
                &&& r.paths() == self.paths() + other.paths()
                &&& entry_procedures(r.entries()) == entry_procedures(self.entries())
                    + entry_procedures(other.entries())
                &&& r.pending_setup() == self.pending_setup() + other.pending_setup()
                &&& r.errors() == self.errors() + other.errors()
                &&& forall|t: NamedDataType| #[trigger]
                    named_types_of(other.types()).contains(t) ==> named_types_of(r.types()).contains(t)
            },
    {
        let ghost before = self;
        let mut this = self;
        let mut other = other;
        let mut dups: Vec<Error> = Vec::new();
        let mut i: usize = 0;
        assert(other.paths().subrange(0, 0) =~= seq![]);
        assert(error_paths(dups@) =~= seq![]);
        while i < other.procedures.len()
            invariant
                i <= other.procedures.len(),
                other.wf(),
                ascending_shared(error_paths(dups@), this.paths(), other.paths().subrange(0, i as int)),
            decreases other.procedures.len() - i,
        {
            let ghost prev = error_paths(dups@);
            let ghost sub0 = other.paths().subrange(0, i as int);
            let ghost sub = other.paths().subrange(0, i + 1);
            let ghost x = path_view(&other.procedures[i as int].0);
            assert(sub.drop_last() =~= sub0);
            assert(sub.last() == x);
            if this.contains_path(&other.procedures[i].0) {
                let q = copy_path(&other.procedures[i].0);
                let mut pos: usize = 0;
                while pos < dups.len() && !path_less(&q, error_path_of(&dups[pos]))
                    invariant
                        pos <= dups.len(),
                        error_paths(dups@) == prev,
                        forall|j: int| 0 <= j < pos ==> !path_lt(path_view(&q), #[trigger] prev[j]),
                    decreases dups.len() - pos,
                {
                    pos = pos + 1;
                }
                proof {
                    lemma_shared_members(this.paths(), sub0);
                    assert(!sub0.contains(x)) by {
                        if sub0.contains(x) {
                            let j = choose|j: int| 0 <= j < sub0.len() && sub0[j] == x;
                            assert(other.paths()[j] == other.paths()[i as int]);
                        }
                    }
                    assert(!prev.contains(x));
                    lemma_insert_ascending(prev, pos as int, x);
                    lemma_shared_members(this.paths(), sub);
                }
                let e = Error::DuplicateProcedures(q);
                dups.insert(pos, e);
                proof {
                    assert(error_paths(dups@) =~= prev.insert(pos as int, x));
                    let s0 = shared(this.paths(), sub0);
                    assert(shared(this.paths(), sub) == s0.push(x));
                    assert forall|y: Seq<Seq<char>>| #[trigger] s0.push(x).contains(y) <==> s0.contains(y) || y == x by {
                        if s0.push(x).contains(y) {
                            let j = choose|j: int| 0 <= j < s0.push(x).len() && s0.push(x)[j] == y;
                            if j < s0.len() {
                                assert(s0[j] == y);
                            }
                        }
                        if s0.contains(y) {
                            let j = choose|j: int| 0 <= j < s0.len() && s0[j] == y;
                            assert(s0.push(x)[j] == y);
                        }
                        if y == x {
                            assert(s0.push(x)[s0.len() as int] == y);
                        }
                    }
                }
            } else {
                assert(shared(this.paths(), sub) == shared(this.paths(), sub0));
            }
            i = i + 1;
        }
        assert(other.paths().subrange(0, i as int) =~= other.paths());
        if dups.len() > 0 {
            let ghost prev = this.errors@;
            let ghost theirs = other.errors@;
            let ghost d = error_paths(dups@);
            this.errors.append(&mut dups);
            this.errors.append(&mut other.errors);
            assert(error_paths(this.errors@) =~= error_paths(prev) + d + error_paths(theirs));
            assert(ascending_shared(d, before.paths(), other.paths()));
            return this;
        }
        let ghost theirs = other;
        this.setup.append(&mut other.setup);
        absorb_types(&mut this.types, &other.types);
        this.procedures.append(&mut other.procedures);
        this.errors.append(&mut other.errors);
        proof {
            assert(this.paths() =~= before.paths() + theirs.paths());
            assert(entry_procedures(this.entries()) =~= entry_procedures(before.entries()) + entry_procedures(theirs.entries()));
            lemma_merge_valid(before.paths(), theirs.paths());
        }
        this
    }

    /// Terminal. With errors recorded, returns all of them in the order they
    /// were recorded. Otherwise runs every initialiser, in the order added,
    /// against `state`, and returns the built registry with that state: one
    /// procedure for each entry, keyed by its path joined with `.`, in ascending
    /// key order.
    pub fn build_with_state<St>(self, state: St) -> (r: Result<(Router<H>, St), Vec<Error>>) where
        S: Setup<St>,
        requires
            self.wf(),
        ensures
            self.errors().len() > 0 ==> (r matches Err(es) && es@ == self.errors()),
            self.errors().len() == 0 ==> (r matches Ok(built) && built.0.wf() && built_from(
                built.0.operations(),
                self.entries(),
            ) && built.0.types() == self.types() && ran_in_order(self.pending_setup(), state, built.1)),
    {
        let ghost before = self;
        let ghost first = state;
        let mut this = self;
        if this.errors.len() > 0 {
            return Err(this.errors);
        }
        let mut state = state;
        let ghost fs = before.setup@;
        let ghost k: int = 0;
        assert(fs.subrange(0, 0).len() == 0);
        while this.setup.len() > 0
            invariant
                this.procedures@ == before.procedures@,
                this.types == before.types,
                paths_valid(entry_paths(before.procedures@)),
                0 <= k <= fs.len(),
                this.setup@ == fs.subrange(k, fs.len() as int),
                ran_in_order(fs.subrange(0, k), first, state),
            decreases this.setup.len(),
        {
            let ghost mid = state;
            let s = this.setup.remove(0);
            let ghost f = s;
            s.run(&mut state);
            proof {
                assert(f == fs[k]);
                assert(f.ran(mid, state));
                assert(fs.subrange(0, k + 1).drop_last() =~= fs.subrange(0, k));
                assert(fs.subrange(0, k + 1).last() == f);
                assert(ran_in_order(fs.subrange(0, k + 1), first, state));
                assert(this.setup@ =~= fs.subrange(k + 1, fs.len() as int));
                k = k + 1;
            }
        }
        assert(fs.subrange(0, k) =~= fs);
        let ghost entries = this.procedures@;
        let ghost n = entries.len();
        let ghost k: int = 0;
        let mut out: Vec<Procedure<H>> = Vec::new();
        proof {
            reveal(corresponds);
        }
        while this.procedures.len() > 0
            invariant
                0 <= k <= n,
                n == entries.len(),
                paths_valid(entry_paths(entries)),
                this.types == before.types,
                this.procedures@ == entries.subrange(k, n as int),
                out@.len() == k,
                keys_sorted(out@),
                corresponds(out@, entries, k),
            decreases this.procedures.len(),
        {
            assert(entries[k] == this.procedures@[0]);
            assert(entry_paths(entries)[k].len() > 0);
            let (path, p) = this.procedures.remove(0);
            let key = get_flattened_name(&path);
            let op = Procedure {
                path,
                key,
                kind: p.kind,
                input: p.input,
                result: p.result,
                handler: p.handler,
            };
            assert(built_entry(op, entries[k])) by {
                reveal(built_entry);
            }
            let mut pos: usize = 0;
            while pos < out.len() && !key_less(&op.key, &out[pos].key)
                invariant
                    pos <= out.len(),
                    forall|j: int| 0 <= j < pos ==> !key_lt(op.key@, #[trigger] out@[j].key@),
                decreases out.len() - pos,
            {
                pos = pos + 1;
            }
            let ghost prev = out@;
            let ghost placed = op;
            out.insert(pos, op);
            assert(out@ == prev.insert(pos as int, placed));
            proof {
                lemma_insert_sorted(prev, pos as int, placed);
                lemma_insert_corresponds(prev, pos as int, placed, entries, k);
                assert(this.procedures@ =~= entries.subrange(k + 1, n as int));
                k = k + 1;
            }
        }
        let built = Router::from_parts(out, this.types);
        proof {
            assert(entries.subrange(k, n as int).len() == 0);
            reveal(corresponds);
            assert forall|i: int| 0 <= i < built.operations().len() implies #[trigger] built.operations()[i].key@ == join_dot(
                path_view(&built.operations()[i].path)) by {
                let e = choose|e: int| 0 <= e < k && built_entry(built.operations()[i], entries[e]);
                reveal(built_entry);
            }
        }
        Ok((built, state))
    }

    /// `build_with_state` against a fresh default state.
    pub fn build<St: Default>(self) -> (r: Result<(Router<H>, St), Vec<Error>>) where
        S: Setup<St>,
        requires
            self.wf(),
        ensures
            self.errors().len() > 0 ==> (r matches Err(es) && es@ == self.errors()),
            self.errors().len() == 0 ==> (r matches Ok(built) && built.0.wf() && built_from(
                built.0.operations(),
                self.entries(),
            ) && built.0.types() == self.types() && exists|fresh: St| ran_in_order(self.pending_setup(), fresh, built.1)),
    {
        let state = St::default();
        self.build_with_state(state)
    }
}

impl<H, S> Default for Router2<H, S> {
    fn default() -> (r: Self)
        ensures
            r.wf(),
            r.entries().len() == 0,
            r.errors().len() == 0,
            r.pending_setup().len() == 0,
            named_types_of(r.types()).len() == 0,
    {
        Router2::new()
    }
}

} // verus!
