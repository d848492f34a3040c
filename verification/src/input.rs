//! What the index is built from: a sequence of named points and the keys
//! for the internal nodes, with the checks that both must pass.

use vstd::prelude::*;
use vstd::hash_map::StringHashMap;
use crate::point::Point;

verus! {

/// `p` is the point `name` at `(x, y)`.
pub open spec fn point_at(p: Point, name: Seq<char>, x: int, y: int) -> bool {
    p.name@ == name && p.p[0] as int == x && p.p[1] as int == y
}

/// One of the first `n` points is called `k`.
pub open spec fn names_upto(pts: Seq<Point>, n: int, k: Seq<char>) -> bool {
    exists|i: int| 0 <= i < n && i < pts.len() && (#[trigger] pts[i]).name@ == k
}

/// A point is called `k`.
pub open spec fn names(pts: Seq<Point>, k: Seq<char>) -> bool {
    names_upto(pts, pts.len() as int, k)
}

/// The points hold `name` at `(x, y)`.
pub open spec fn lists(pts: Seq<Point>, name: Seq<char>, x: int, y: int) -> bool {
    exists|i: int| 0 <= i < pts.len() && point_at(#[trigger] pts[i], name, x, y)
}

/// No two of the first `n` points share a name.
pub open spec fn names_distinct_upto(pts: Seq<Point>, n: int) -> bool {
    forall|i: int, j: int|
        0 <= i < j < n && j < pts.len() ==> (#[trigger] pts[i]).name@ != (#[trigger] pts[j]).name@
}

/// No two points share a name.
pub open spec fn names_distinct(pts: Seq<Point>) -> bool {
    names_distinct_upto(pts, pts.len() as int)
}

/// One of `keys[lo..hi]` is `k`.
pub open spec fn key_in(keys: Seq<String>, lo: int, hi: int, k: Seq<char>) -> bool {
    exists|j: int| lo <= j < hi && 0 <= j < keys.len() && (#[trigger] keys[j])@ == k
}

/// `keys[lo..hi]` exist, differ from each other and from every name.
pub open spec fn keys_fresh(keys: Seq<String>, lo: int, hi: int, pts: Seq<Point>) -> bool {
    &&& 0 <= lo <= hi <= keys.len()
    &&& forall|a: int, b: int|
        lo <= a < b < hi ==> (#[trigger] keys[a])@ != (#[trigger] keys[b])@
    &&& forall|a: int| lo <= a < hi ==> !names(pts, (#[trigger] keys[a])@)
}

/// The points ascend on `axis`.
pub open spec fn sorted_on(pts: Seq<Point>, axis: int) -> bool {
    forall|i: int, j: int|
        0 <= i <= j < pts.len() ==> (#[trigger] pts[i]).p[axis] <= (#[trigger] pts[j]).p[axis]
}

/// Points of `after` that are equal on `axis` stand in the order in which
/// they stand in `before`.
pub open spec fn keeps_order(before: Seq<Point>, after: Seq<Point>, axis: int) -> bool {
    forall|i: int, j: int|
        0 <= i < j < after.len() && (#[trigger] after[i]).p[axis] == (#[trigger] after[j]).p[axis]
            ==> exists|a: int, b: int|
            0 <= a < b < before.len() && #[trigger] before[a] == after[i] && #[trigger] before[b]
                == after[j]
}

/// Rearranging points keeps their number, their names, their places, and
/// that no name repeats.
pub proof fn lemma_rearranged(a: Seq<Point>, b: Seq<Point>)
    requires
        a.to_multiset() == b.to_multiset(),
    ensures
        a.len() == b.len(),
        forall|k: Seq<char>| #[trigger] names(b, k) <==> names(a, k),
        forall|n: Seq<char>, x: int, y: int| #[trigger] lists(b, n, x, y) <==> lists(a, n, x, y),
        names_distinct(a) ==> names_distinct(b),
{
    a.to_multiset_ensures();
    b.to_multiset_ensures();
    assert forall|i: int| 0 <= i < b.len() implies a.contains(#[trigger] b[i]) by {
        assert(b.contains(b[i]));
        assert(b.to_multiset().count(b[i]) > 0);
        assert(a.to_multiset().count(b[i]) > 0);
    }
    assert forall|i: int| 0 <= i < a.len() implies b.contains(#[trigger] a[i]) by {
        assert(a.contains(a[i]));
        assert(a.to_multiset().count(a[i]) > 0);
        assert(b.to_multiset().count(a[i]) > 0);
    }
    assert forall|k: Seq<char>| #[trigger] names(b, k) <==> names(a, k) by {
        if names(b, k) {
            let i = choose|i: int| 0 <= i < b.len() && (#[trigger] b[i]).name@ == k;
            assert(a.contains(b[i]));
            let j = choose|j: int| 0 <= j < a.len() && a[j] == b[i];
            assert(a[j].name@ == k);
        }
        if names(a, k) {
            let i = choose|i: int| 0 <= i < a.len() && (#[trigger] a[i]).name@ == k;
            assert(b.contains(a[i]));
            let j = choose|j: int| 0 <= j < b.len() && b[j] == a[i];
            assert(b[j].name@ == k);
        }
    }
    assert forall|n: Seq<char>, x: int, y: int| #[trigger]
        lists(b, n, x, y) <==> lists(a, n, x, y) by {
        if lists(b, n, x, y) {
            let i = choose|i: int| 0 <= i < b.len() && point_at(#[trigger] b[i], n, x, y);
            assert(a.contains(b[i]));
            let j = choose|j: int| 0 <= j < a.len() && a[j] == b[i];
            assert(point_at(a[j], n, x, y));
        }
        if lists(a, n, x, y) {
            let i = choose|i: int| 0 <= i < a.len() && point_at(#[trigger] a[i], n, x, y);
            assert(b.contains(a[i]));
            let j = choose|j: int| 0 <= j < b.len() && b[j] == a[i];
            assert(point_at(b[j], n, x, y));
        }
    }
    if names_distinct(a) {
        assert(a.no_duplicates()) by {
            assert forall|i: int, j: int|
                0 <= i < a.len() && 0 <= j < a.len() && i != j implies a[i] != a[j] by {
                if i < j {
                    assert(a[i].name@ != a[j].name@);
                } else {
                    assert(a[j].name@ != a[i].name@);
                }
            }
        }
        a.lemma_multiset_has_no_duplicates();
        b.lemma_multiset_has_no_duplicates_conv();
        assert forall|i: int, j: int| 0 <= i < j < b.len() implies (#[trigger] b[i]).name@ != (
        #[trigger] b[j]).name@ by {
            if b[i].name@ == b[j].name@ {
                assert(a.contains(b[i]));
                assert(a.contains(b[j]));
                let ia = choose|k: int| 0 <= k < a.len() && a[k] == b[i];
                let ja = choose|k: int| 0 <= k < a.len() && a[k] == b[j];
                if ia < ja {
                    assert(a[ia].name@ != a[ja].name@);
                } else if ja < ia {
                    assert(a[ja].name@ != a[ia].name@);
                }
                assert(b[i] == b[j]);
            }
        }
    }
}

/// Cutting points in two at `mid` shares out their names and places, and
/// keeps names apart.
pub proof fn lemma_halves(pts: Seq<Point>, mid: int)
    requires
        0 <= mid <= pts.len(),
    ensures
        forall|k: Seq<char>| #[trigger]
            names(pts, k) <==> names(pts.subrange(0, mid), k) || names(
                pts.subrange(mid, pts.len() as int),
                k,
            ),
        forall|n: Seq<char>, x: int, y: int| #[trigger]
            lists(pts, n, x, y) <==> lists(pts.subrange(0, mid), n, x, y) || lists(
                pts.subrange(mid, pts.len() as int),
                n,
                x,
                y,
            ),
        names_distinct(pts) ==> {
            &&& names_distinct(pts.subrange(0, mid))
            &&& names_distinct(pts.subrange(mid, pts.len() as int))
            &&& forall|k: Seq<char>|
                !(#[trigger] names(pts.subrange(0, mid), k) && names(
                    pts.subrange(mid, pts.len() as int),
                    k,
                ))
        },
{
    let left = pts.subrange(0, mid);
    let right = pts.subrange(mid, pts.len() as int);
    assert forall|k: Seq<char>| #[trigger] names(pts, k) <==> names(left, k) || names(right, k) by {
        if names(pts, k) {
            let i = choose|i: int| 0 <= i < pts.len() && (#[trigger] pts[i]).name@ == k;
            if i < mid {
                assert(left[i].name@ == k);
            } else {
                assert(right[i - mid].name@ == k);
            }
        }
        if names(left, k) {
            let i = choose|i: int| 0 <= i < left.len() && (#[trigger] left[i]).name@ == k;
            assert(pts[i].name@ == k);
        }
        if names(right, k) {
            let i = choose|i: int| 0 <= i < right.len() && (#[trigger] right[i]).name@ == k;
            assert(pts[i + mid].name@ == k);
        }
    }
    assert forall|n: Seq<char>, x: int, y: int| #[trigger]
        lists(pts, n, x, y) <==> lists(left, n, x, y) || lists(right, n, x, y) by {
        if lists(pts, n, x, y) {
            let i = choose|i: int| 0 <= i < pts.len() && point_at(#[trigger] pts[i], n, x, y);
            if i < mid {
                assert(point_at(left[i], n, x, y));
            } else {
                assert(point_at(right[i - mid], n, x, y));
            }
        }
        if lists(left, n, x, y) {
            let i = choose|i: int| 0 <= i < left.len() && point_at(#[trigger] left[i], n, x, y);
            assert(point_at(pts[i], n, x, y));
        }
        if lists(right, n, x, y) {
            let i = choose|i: int| 0 <= i < right.len() && point_at(#[trigger] right[i], n, x, y);
            assert(point_at(pts[i + mid], n, x, y));
        }
    }
    if names_distinct(pts) {
        assert forall|i: int, j: int| 0 <= i < j < left.len() implies (#[trigger] left[i]).name@
            != (#[trigger] left[j]).name@ by {
            assert(pts[i].name@ != pts[j].name@);
        }
        assert forall|i: int, j: int| 0 <= i < j < right.len() implies (#[trigger] right[i]).name@
            != (#[trigger] right[j]).name@ by {
            assert(pts[i + mid].name@ != pts[j + mid].name@);
        }
        assert forall|k: Seq<char>| !(#[trigger] names(left, k) && names(right, k)) by {
            if names(left, k) && names(right, k) {
                let i = choose|i: int| 0 <= i < left.len() && (#[trigger] left[i]).name@ == k;
                let j = choose|i: int| 0 <= i < right.len() && (#[trigger] right[i]).name@ == k;
                assert(pts[i].name@ != pts[j + mid].name@);
            }
        }
    }
}

/// Fewer keys, kept apart from fewer names, are fresh as well.
pub proof fn lemma_keys_fresh_narrow(
    keys: Seq<String>,
    lo: int,
    hi: int,
    pts: Seq<Point>,
    lo2: int,
    hi2: int,
    pts2: Seq<Point>,
)
    requires
        keys_fresh(keys, lo, hi, pts),
        lo <= lo2 <= hi2 <= hi,
        forall|k: Seq<char>| #[trigger] names(pts2, k) ==> names(pts, k),
    ensures
        keys_fresh(keys, lo2, hi2, pts2),
        forall|k: Seq<char>| #[trigger] key_in(keys, lo2, hi2, k) ==> key_in(keys, lo, hi, k),
{
    assert forall|k: Seq<char>| #[trigger] key_in(keys, lo2, hi2, k) implies key_in(
        keys,
        lo,
        hi,
        k,
    ) by {
        let j = choose|j: int| lo2 <= j < hi2 && 0 <= j < keys.len() && (#[trigger] keys[j])@ == k;
        assert(keys[j]@ == k);
    }
}

/// With fresh keys for a sequence cut at `mid`, where the first key is for
/// the top, the next `mid - 1` for the lower part and the rest for the upper
/// part: the top key is neither a name nor a key of either part, and no name
/// or key of one part is a name or key of the other.
pub proof fn lemma_sides_apart(keys: Seq<String>, base: int, pts: Seq<Point>, mid: int)
    requires
        0 < mid < pts.len(),
        names_distinct(pts),
        keys_fresh(keys, base, base + pts.len() - 1, pts),
    ensures
        !names(pts, keys[base]@),
        !key_in(keys, base + 1, base + pts.len() - 1, keys[base]@),
        forall|k: Seq<char>|
            !((#[trigger] names(pts.subrange(0, mid), k) || #[trigger] key_in(
                keys,
                base + 1,
                base + mid,
                k,
            )) && (names(pts.subrange(mid, pts.len() as int), k) || key_in(
                keys,
                base + mid,
                base + pts.len() - 1,
                k,
            ))),
{
    let n = pts.len() as int;
    let left = pts.subrange(0, mid);
    let right = pts.subrange(mid, n);
    lemma_halves(pts, mid);
    if key_in(keys, base + 1, base + n - 1, keys[base]@) {
        let j = choose|j: int|
            base + 1 <= j < base + n - 1 && 0 <= j < keys.len() && (#[trigger] keys[j])@
                == keys[base]@;
        assert(keys[base]@ != keys[j]@);
    }
    assert forall|k: Seq<char>|
        !((#[trigger] names(left, k) || #[trigger] key_in(keys, base + 1, base + mid, k)) && (
        names(right, k) || key_in(keys, base + mid, base + n - 1, k))) by {
        assert(names(pts, k) <==> names(left, k) || names(right, k));
        if key_in(keys, base + 1, base + mid, k) {
            let j = choose|j: int|
                base + 1 <= j < base + mid && 0 <= j < keys.len() && (#[trigger] keys[j])@ == k;
            assert(!names(pts, keys[j]@));
            if key_in(keys, base + mid, base + n - 1, k) {
                let j2 = choose|j: int|
                    base + mid <= j < base + n - 1 && 0 <= j < keys.len() && (#[trigger] keys[j])@
                        == k;
                assert(keys[j]@ != keys[j2]@);
            }
        }
        if key_in(keys, base + mid, base + n - 1, k) {
            let j2 = choose|j: int|
                base + mid <= j < base + n - 1 && 0 <= j < keys.len() && (#[trigger] keys[j])@
                    == k;
            assert(!names(pts, keys[j2]@));
        }
    }
}

/// The names of the points as a set of keys, or nothing where a name repeats.
pub fn distinct_names(arr: &Vec<Point>) -> (res: Option<StringHashMap<bool>>)
    ensures
        match res {
            Some(seen) => names_distinct(arr@) && forall|k: Seq<char>| #[trigger]
                seen@.contains_key(k) <==> names(arr@, k),
            None => !names_distinct(arr@),
        },
{
    let mut seen = StringHashMap::<bool>::new();
    let mut i: usize = 0;
    while i < arr.len()
        invariant
            i <= arr.len(),
            names_distinct_upto(arr@, i as int),
            forall|k: Seq<char>| #[trigger] seen@.contains_key(k) <==> names_upto(arr@, i as int, k),
        decreases arr.len() - i,
    {
        if seen.contains_key(arr[i].name.as_str()) {
            proof {
                let k = arr@[i as int].name@;
                assert(names_upto(arr@, i as int, k));
                let j = choose|j: int| 0 <= j < i && j < arr@.len() && (#[trigger] arr@[j]).name@ == k;
                assert(arr@[j].name@ == arr@[i as int].name@);
            }
            return None;
        }
        seen.insert(arr[i].name.clone(), true);
        proof {
            let ghost_i = i as int;
            assert forall|k: Seq<char>| #[trigger]
                seen@.contains_key(k) <==> names_upto(arr@, ghost_i + 1, k) by {
                if names_upto(arr@, ghost_i + 1, k) {
                    let j = choose|j: int|
                        0 <= j < ghost_i + 1 && j < arr@.len() && (#[trigger] arr@[j]).name@ == k;
                    if j < ghost_i {
                        assert(names_upto(arr@, ghost_i, k));
                    }
                }
                if names_upto(arr@, ghost_i, k) {
                    let j = choose|j: int|
                        0 <= j < ghost_i && j < arr@.len() && (#[trigger] arr@[j]).name@ == k;
                    assert(arr@[j].name@ == k);
                }
                if k == arr@[ghost_i].name@ {
                    assert(arr@[ghost_i].name@ == k);
                }
            }
            assert forall|a: int, b: int| 0 <= a < b < ghost_i + 1 && b < arr@.len() implies (
            #[trigger] arr@[a]).name@ != (#[trigger] arr@[b]).name@ by {
                if b == ghost_i {
                    if arr@[a].name@ == arr@[b].name@ {
                        assert(names_upto(arr@, ghost_i, arr@[b].name@));
                    }
                }
            }
        }
        i += 1;
    }
    Some(seen)
}

/// Whether the first `count` keys exist, differ from each other and are
/// none of the keys that `taken` holds.
pub fn fresh_keys(taken: StringHashMap<bool>, keys: &Vec<String>, count: usize) -> (b: bool)
    ensures
        b == {
            &&& count <= keys.len()
            &&& forall|i: int, j: int|
                0 <= i < j < count ==> (#[trigger] keys@[i])@ != (#[trigger] keys@[j])@
            &&& forall|i: int| 0 <= i < count ==> !taken@.contains_key((#[trigger] keys@[i])@)
        },
{
    if keys.len() < count {
        return false;
    }
    let ghost taken0 = taken@;
    let mut seen = taken;
    let mut i: usize = 0;
    while i < count
        invariant
            i <= count <= keys.len(),
            taken0 == taken@,
            forall|a: int, b: int|
                0 <= a < b < i ==> (#[trigger] keys@[a])@ != (#[trigger] keys@[b])@,
            forall|a: int| 0 <= a < i ==> !taken0.contains_key((#[trigger] keys@[a])@),
            forall|k: Seq<char>| #[trigger]
                seen@.contains_key(k) <==> taken0.contains_key(k) || key_in(keys@, 0, i as int, k),
        decreases count - i,
    {
        if seen.contains_key(keys[i].as_str()) {
            proof {
                let k = keys@[i as int]@;
                assert(seen@.contains_key(k));
                if taken0.contains_key(k) {
                    assert(taken@.contains_key(keys@[i as int]@));
                } else {
                    assert(key_in(keys@, 0, i as int, k));
                    let j = choose|j: int|
                        0 <= j < i && 0 <= j < keys@.len() && (#[trigger] keys@[j])@ == k;
                    assert(keys@[j]@ == keys@[i as int]@);
                }
            }
            return false;
        }
        seen.insert(keys[i].clone(), true);
        proof {
            let ghost_i = i as int;
            assert forall|k: Seq<char>| #[trigger]
                seen@.contains_key(k) <==> taken0.contains_key(k) || key_in(
                    keys@,
                    0,
                    ghost_i + 1,
                    k,
                ) by {
                if key_in(keys@, 0, ghost_i + 1, k) {
                    let j = choose|j: int|
                        0 <= j < ghost_i + 1 && 0 <= j < keys@.len() && (#[trigger] keys@[j])@
                            == k;
                    if j < ghost_i {
                        assert(key_in(keys@, 0, ghost_i, k));
                    }
                }
                if key_in(keys@, 0, ghost_i, k) {
                    let j = choose|j: int|
                        0 <= j < ghost_i && 0 <= j < keys@.len() && (#[trigger] keys@[j])@ == k;
                    assert(keys@[j]@ == k);
                }
                if k == keys@[ghost_i]@ {
                    assert(keys@[ghost_i]@ == k);
                }
            }
            assert forall|a: int, b: int| 0 <= a < b < ghost_i + 1 implies (#[trigger] keys@[a])@
                != (#[trigger] keys@[b])@ by {
                if b == ghost_i && keys@[a]@ == keys@[b]@ {
                    assert(key_in(keys@, 0, ghost_i, keys@[b]@));
                }
            }
        }
        i += 1;
    }
    true
}

/// A copy of `arr[from..to]`.
pub fn copy_range(arr: &Vec<Point>, from: usize, to: usize) -> (res: Vec<Point>)
    requires
        from <= to <= arr.len(),
    ensures
        res@ == arr@.subrange(from as int, to as int),
{
    let mut res: Vec<Point> = Vec::new();
    let mut i: usize = from;
    while i < to
        invariant
            from <= i <= to <= arr.len(),
            res@ == arr@.subrange(from as int, i as int),
        decreases to - i,
    {
        res.push(arr[i].duplicate());
        proof {
            assert(res@ =~= arr@.subrange(from as int, i as int + 1));
        }
        i += 1;
    }
    res
}

} // verus!
