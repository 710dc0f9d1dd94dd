//! Paths: non-empty sequences of name segments, and their dotted form.
use vstd::prelude::*;

verus! {

/// The abstract value of a path: its segments, each a sequence of characters.
pub open spec fn path_view(p: &Vec<String>) -> Seq<Seq<char>> {
    segments_view(p@)
}

/// The character sequences of a sequence of strings.
pub open spec fn segments_view(s: Seq<String>) -> Seq<Seq<char>> {
    s.map_values(|x: String| x@)
}

/// The segments joined with `.` between neighbours.
pub open spec fn join_dot(p: Seq<Seq<char>>) -> Seq<char>
    decreases p.len(),
{
    if p.len() == 0 {
        seq![]
    } else if p.len() == 1 {
        p[0]
    } else {
        join_dot(p.drop_last()) + seq!['.'] + p.last()
    }
}

/// The externally visible key of a path: its segments joined with `.`.
pub fn get_flattened_name(name: &Vec<String>) -> (r: String)
    ensures
        r@ == join_dot(path_view(name)),
{
    if name.len() == 0 {
        return String::new();
    }
    let mut r = name[0].clone();
    let mut i: usize = 1;
    while i < name.len()
        invariant
            1 <= i <= name.len(),
            r@ == join_dot(path_view(name).subrange(0, i as int)),
        decreases name.len() - i,
    {
        proof {
            reveal_strlit(".");
        }
        r.append(".");
        r.append(name[i].as_str());
        let ghost next = path_view(name).subrange(0, i + 1);
        assert(next.drop_last() =~= path_view(name).subrange(0, i as int));
        i = i + 1;
    }
    assert(path_view(name).subrange(0, name.len() as int) =~= path_view(name));
    r
}

/// A copy of a path, segment by segment.
pub fn copy_path(p: &Vec<String>) -> (r: Vec<String>)
    ensures
        path_view(&r) == path_view(p),
{
    let mut r: Vec<String> = Vec::new();
    let mut i: usize = 0;
    while i < p.len()
        invariant
            i <= p.len(),
            path_view(&r) =~= path_view(p).subrange(0, i as int),
        decreases p.len() - i,
    {
        let ghost before = r@;
        let c = p[i].clone();
        r.push(c);
        assert(r@ == before.push(c));
        assert(c@ == path_view(p)[i as int]);
        assert(segments_view(before.push(c)) =~= segments_view(before).push(c@));
        assert(path_view(&r) =~= path_view(p).subrange(0, i + 1));
        i = i + 1;
    }
    r
}

/// Whether two paths have the same segments, in order.
pub fn same_path(a: &Vec<String>, b: &Vec<String>) -> (r: bool)
    ensures
        r == (path_view(a) == path_view(b)),
{
    if a.len() != b.len() {
        proof {
            assert(path_view(a).len() != path_view(b).len());
        }
        return false;
    }
    let mut i: usize = 0;
    while i < a.len()
        invariant
            a.len() == b.len(),
            i <= a.len(),
            forall|j: int| 0 <= j < i ==> a@[j]@ == b@[j]@,
        decreases a.len() - i,
    {
        if a[i] != b[i] {
            proof {
                assert(path_view(a)[i as int] != path_view(b)[i as int]);
            }
            return false;
        }
        i = i + 1;
    }
    assert(path_view(a) =~= path_view(b));
    true
}

/// A path with `prefix` put in front of its segments.
pub fn prefixed(prefix: &String, p: &Vec<String>) -> (r: Vec<String>)
    ensures
        path_view(&r) == seq![prefix@] + path_view(p),
{
    let mut r: Vec<String> = Vec::new();
    r.push(prefix.clone());
    let mut i: usize = 0;
    while i < p.len()
        invariant
            i <= p.len(),
            path_view(&r) =~= seq![prefix@] + path_view(p).subrange(0, i as int),
        decreases p.len() - i,
    {
        let ghost before = r@;
        let c = p[i].clone();
        r.push(c);
        assert(r@ == before.push(c));
        assert(c@ == path_view(p)[i as int]);
        assert(segments_view(before.push(c)) =~= segments_view(before).push(c@));
        assert(path_view(&r) =~= seq![prefix@] + path_view(p).subrange(0, i + 1));
        i = i + 1;
    }
    assert(path_view(p).subrange(0, p.len() as int) =~= path_view(p));
    r
}

/// `a` comes strictly before `b` in the order of strings: lexicographic by
/// character, which is the byte order of their UTF-8 encodings.
pub open spec fn key_lt(a: Seq<char>, b: Seq<char>) -> bool
    decreases a.len(),
{
    if b.len() == 0 {
        false
    } else if a.len() == 0 {
        true
    } else if a[0] != b[0] {
        (a[0] as u32) < (b[0] as u32)
    } else {
        key_lt(a.drop_first(), b.drop_first())
    }
}

/// `a` comes strictly before `b` in the order of paths: lexicographic by
/// segment, each segment in the order of strings.
pub open spec fn path_lt(a: Seq<Seq<char>>, b: Seq<Seq<char>>) -> bool
    decreases a.len(),
{
    if b.len() == 0 {
        false
    } else if a.len() == 0 {
        true
    } else if a[0] != b[0] {
        key_lt(a[0], b[0])
    } else {
        path_lt(a.drop_first(), b.drop_first())
    }
}

/// The order of strings is strict and total.
pub proof fn lemma_key_order(a: Seq<char>, b: Seq<char>)
    ensures
        key_lt(a, b) ==> !key_lt(b, a),
        a != b ==> key_lt(a, b) || key_lt(b, a),
        !key_lt(a, a),
    decreases a.len(),
{
    if a.len() == 0 && b.len() == 0 {
        assert(a =~= b);
    }
    if a.len() > 0 && b.len() > 0 && a[0] != b[0] {
        lemma_char_code_injective(a[0], b[0]);
    }
    if a.len() > 0 && b.len() > 0 && a[0] == b[0] {
        lemma_key_order(a.drop_first(), b.drop_first());
        if a.drop_first() == b.drop_first() {
            assert(a =~= seq![a[0]] + a.drop_first());
            assert(b =~= seq![b[0]] + b.drop_first());
        }
    }
    if a.len() > 0 {
        lemma_key_order(a.drop_first(), a.drop_first());
    }
}

/// The order of paths is strict and total.
pub proof fn lemma_path_order(a: Seq<Seq<char>>, b: Seq<Seq<char>>)
    ensures
        path_lt(a, b) ==> !path_lt(b, a),
        a != b ==> path_lt(a, b) || path_lt(b, a),
        !path_lt(a, a),
    decreases a.len(),
{
    if a.len() == 0 && b.len() == 0 {
        assert(a =~= b);
    }
    if a.len() > 0 && b.len() > 0 {
        lemma_key_order(a[0], b[0]);
        if a[0] == b[0] {
            lemma_path_order(a.drop_first(), b.drop_first());
            if a.drop_first() == b.drop_first() {
                assert(a =~= seq![a[0]] + a.drop_first());
                assert(b =~= seq![b[0]] + b.drop_first());
            }
        }
    }
    if a.len() > 0 {
        lemma_path_order(a.drop_first(), a.drop_first());
    }
}

/// Distinct characters have distinct code points.
proof fn lemma_char_code_injective(x: char, y: char)
    ensures
        (x as u32) == (y as u32) ==> x == y,
{
}

/// Whether `a` comes strictly before `b` in the order of strings.
pub fn key_less(a: &String, b: &String) -> (r: bool)
    ensures
        r == key_lt(a@, b@),
{
    let la = a.as_str().unicode_len();
    let lb = b.as_str().unicode_len();
    let mut i: usize = 0;
    assert(a@.subrange(0, la as int) =~= a@);
    assert(b@.subrange(0, lb as int) =~= b@);
    while i < la && i < lb
        invariant
            la == a@.len(),
            lb == b@.len(),
            i <= la,
            i <= lb,
            key_lt(a@, b@) == key_lt(a@.subrange(i as int, la as int), b@.subrange(i as int, lb as int)),
        decreases la - i,
    {
        let ca = a.as_str().get_char(i);
        let cb = b.as_str().get_char(i);
        let ghost x = a@.subrange(i as int, la as int);
        let ghost y = b@.subrange(i as int, lb as int);
        assert(x[0] == ca && y[0] == cb);
        if ca != cb {
            return (ca as u32) < (cb as u32);
        }
        assert(x.drop_first() =~= a@.subrange(i + 1, la as int));
        assert(y.drop_first() =~= b@.subrange(i + 1, lb as int));
        i = i + 1;
    }
    i < lb
}

/// Whether `a` comes strictly before `b` in the order of paths.
pub fn path_less(a: &Vec<String>, b: &Vec<String>) -> (r: bool)
    ensures
        r == path_lt(path_view(a), path_view(b)),
{
    let mut i: usize = 0;
    assert(path_view(a).subrange(0, a.len() as int) =~= path_view(a));
    assert(path_view(b).subrange(0, b.len() as int) =~= path_view(b));
    while i < a.len() && i < b.len()
        invariant
            i <= a.len(),
            i <= b.len(),
            path_lt(path_view(a), path_view(b)) == path_lt(
                path_view(a).subrange(i as int, a.len() as int),
                path_view(b).subrange(i as int, b.len() as int),
            ),
        decreases a.len() - i,
    {
        let ghost x = path_view(a).subrange(i as int, a.len() as int);
        let ghost y = path_view(b).subrange(i as int, b.len() as int);
        assert(x[0] == a@[i as int]@ && y[0] == b@[i as int]@);
        if a[i] != b[i] {
            return key_less(&a[i], &b[i]);
        }
        assert(x.drop_first() =~= path_view(a).subrange(i + 1, a.len() as int));
        assert(y.drop_first() =~= path_view(b).subrange(i + 1, b.len() as int));
        i = i + 1;
    }
    i < b.len()
}

} // verus!
