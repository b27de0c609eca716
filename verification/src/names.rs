//! Ascending lists of names.
//!
//! A market has thousands of names and a book touches a dozen, so every
//! phase of a walk visits an ascending list of the names in play instead of
//! scanning the market.

use vstd::prelude::*;

verus! {

/// Every element is below the ones after it.
pub open spec fn ascending(names: Seq<usize>) -> bool {
    forall|i: int, j: int| 0 <= i < j < names.len() ==> names[i] < names[j]
}

/// No element is above the ones after it.
pub open spec fn sorted(names: Seq<usize>) -> bool {
    forall|i: int, j: int| 0 <= i <= j < names.len() ==> names[i] <= names[j]
}

/// Every name is below `bound`.
pub open spec fn bounded(names: Seq<usize>, bound: int) -> bool {
    forall|i: int| 0 <= i < names.len() ==> (#[trigger] names[i]) < bound
}

/// A sorted list with one name put in its place, if it is not there.
pub open spec fn inserted(names: Seq<usize>, name: usize) -> Seq<usize>
    decreases names.len(),
{
    if names.len() == 0 || names.last() < name {
        names.push(name)
    } else if names.last() == name {
        names
    } else {
        inserted(names.drop_last(), name).push(names.last())
    }
}

/// The union of two ascending lists, ascending.
pub open spec fn union(left: Seq<usize>, right: Seq<usize>) -> Seq<usize>
    decreases left.len() + right.len(),
{
    if left.len() == 0 {
        right
    } else if right.len() == 0 {
        left
    } else if left[0] < right[0] {
        seq![left[0]] + union(left.skip(1), right)
    } else if right[0] < left[0] {
        seq![right[0]] + union(left, right.skip(1))
    } else {
        seq![left[0]] + union(left.skip(1), right.skip(1))
    }
}

/// The names below `n` that `keep` holds of, ascending.
pub open spec fn where_below(n: int, keep: spec_fn(int) -> bool) -> Seq<usize>
    decreases n,
{
    if n <= 0 {
        Seq::empty()
    } else if keep(n - 1) {
        where_below(n - 1, keep).push((n - 1) as usize)
    } else {
        where_below(n - 1, keep)
    }
}

/// The names of a list that `keep` holds of, in the list's order.
pub open spec fn kept(names: Seq<usize>, keep: spec_fn(int) -> bool) -> Seq<usize>
    decreases names.len(),
{
    if names.len() == 0 {
        names
    } else if keep(names.last() as int) {
        kept(names.drop_last(), keep).push(names.last())
    } else {
        kept(names.drop_last(), keep)
    }
}

/// Inserting keeps a list ascending and adds the one name.
pub proof fn lemma_inserted(names: Seq<usize>, name: usize)
    requires
        ascending(names),
    ensures
        ascending(inserted(names, name)),
        forall|x: usize|
            #[trigger] inserted(names, name).contains(x) <==> names.contains(x) || x == name,
        names.contains(name) ==> inserted(names, name) == names,
    decreases names.len(),
{
    let out: Seq<usize> = inserted(names, name);
    if names.len() == 0 || names.last() < name {
        assert forall|x: usize| #[trigger] out.contains(x) <==> names.contains(x) || x
            == name by {
            if names.contains(x) {
                let i: int = choose|i: int| 0 <= i < names.len() && names[i] == x;
                assert(out[i] == x);
            }
            assert(out[names.len() as int] == name);
        }
    } else if names.last() == name {
        assert(names[names.len() - 1] == name);
    } else {
        let front: Seq<usize> = names.drop_last();
        let rest: Seq<usize> = inserted(front, name);
        lemma_inserted(front, name);
        assert forall|x: usize| #[trigger] names.contains(x) <==> front.contains(x) || x
            == names.last() by {
            if names.contains(x) {
                let i: int = choose|i: int| 0 <= i < names.len() && names[i] == x;
                if i < front.len() {
                    assert(front[i] == x);
                }
            }
            if front.contains(x) {
                let i: int = choose|i: int| 0 <= i < front.len() && front[i] == x;
                assert(names[i] == x);
            }
            assert(names[names.len() - 1] == names.last());
        }
        assert forall|x: usize| #[trigger] out.contains(x) <==> rest.contains(x) || x
            == names.last() by {
            if out.contains(x) {
                let i: int = choose|i: int| 0 <= i < out.len() && out[i] == x;
                if i < rest.len() {
                    assert(rest[i] == x);
                }
            }
            if rest.contains(x) {
                let i: int = choose|i: int| 0 <= i < rest.len() && rest[i] == x;
                assert(out[i] == x);
            }
            assert(out[rest.len() as int] == names.last());
        }
        assert forall|i: int, j: int| 0 <= i < j < out.len() implies out[i] < out[j] by {
            if j == rest.len() {
                let x: usize = rest[i];
                assert(rest.contains(x));
                if x != name {
                    assert(front.contains(x));
                    let k: int = choose|k: int| 0 <= k < front.len() && front[k] == x;
                    assert(names[k] < names[names.len() - 1]);
                }
            } else {
                assert(rest[i] < rest[j]);
            }
        }
        if names.contains(name) {
            assert(front.contains(name));
            assert(out =~= names);
        }
    }
}

/// The union of two ascending lists is ascending and names what either does.
pub proof fn lemma_union(left: Seq<usize>, right: Seq<usize>)
    requires
        ascending(left),
        ascending(right),
    ensures
        ascending(union(left, right)),
        forall|x: usize|
            #[trigger] union(left, right).contains(x) <==> left.contains(x) || right.contains(x),
    decreases left.len() + right.len(),
{
    let out: Seq<usize> = union(left, right);
    if left.len() > 0 && right.len() > 0 {
        let (first, l, r): (usize, Seq<usize>, Seq<usize>) = if left[0] < right[0] {
            (left[0], left.skip(1), right)
        } else if right[0] < left[0] {
            (right[0], left, right.skip(1))
        } else {
            (left[0], left.skip(1), right.skip(1))
        };
        let rest: Seq<usize> = union(l, r);
        lemma_union(l, r);
        assert(out =~= seq![first] + rest);
        lemma_head(left);
        lemma_head(right);
        lemma_prepended(first, rest);
        assert forall|i: int, j: int| 0 <= i < j < out.len() implies out[i] < out[j] by {
            if i == 0 {
                let x: usize = rest[j - 1];
                assert(rest.contains(x));
                if l.contains(x) {
                    let k: int = choose|k: int| 0 <= k < l.len() && l[k] == x;
                    assert(left[0] <= x && (l != left ==> left[0] < x));
                } else {
                    let k: int = choose|k: int| 0 <= k < r.len() && r[k] == x;
                    assert(right[0] <= x && (r != right ==> right[0] < x));
                }
            } else {
                assert(rest[i - 1] < rest[j - 1]);
            }
        }
    }
}

proof fn lemma_head(names: Seq<usize>)
    requires
        names.len() > 0,
        ascending(names),
    ensures
        ascending(names.skip(1)),
        forall|x: usize|
            #[trigger] names.contains(x) <==> x == names[0] || names.skip(1).contains(x),
        forall|x: usize| #[trigger] names.skip(1).contains(x) ==> names[0] < x,
{
    let tail: Seq<usize> = names.skip(1);
    assert forall|x: usize| #[trigger] names.contains(x) <==> x == names[0] || tail.contains(x) by {
        if names.contains(x) {
            let i: int = choose|i: int| 0 <= i < names.len() && names[i] == x;
            if i > 0 {
                assert(tail[i - 1] == x);
            }
        }
        if tail.contains(x) {
            let i: int = choose|i: int| 0 <= i < tail.len() && tail[i] == x;
            assert(names[i + 1] == x);
        }
    }
}

proof fn lemma_prepended(first: usize, rest: Seq<usize>)
    ensures
        forall|x: usize|
            #[trigger] (seq![first] + rest).contains(x) <==> x == first || rest.contains(x),
{
    let out: Seq<usize> = seq![first] + rest;
    assert forall|x: usize| #[trigger] out.contains(x) <==> x == first || rest.contains(x) by {
        if out.contains(x) {
            let i: int = choose|i: int| 0 <= i < out.len() && out[i] == x;
            if i > 0 {
                assert(rest[i - 1] == x);
            }
        }
        if rest.contains(x) {
            let i: int = choose|i: int| 0 <= i < rest.len() && rest[i] == x;
            assert(out[i + 1] == x);
        }
        assert(out[0] == first);
    }
}

/// The names below a bound that satisfy a condition are just those,
/// ascending.
pub proof fn lemma_where_below(n: int, keep: spec_fn(int) -> bool)
    requires
        n <= usize::MAX,
    ensures
        ascending(where_below(n, keep)),
        bounded(where_below(n, keep), if n > 0 { n } else { 0 }),
        forall|x: usize| #[trigger] where_below(n, keep).contains(x) <==> x < n && keep(x as int),
    decreases n,
{
    if n > 0 {
        lemma_where_below(n - 1, keep);
        let rest: Seq<usize> = where_below(n - 1, keep);
        if keep(n - 1) {
            let out: Seq<usize> = rest.push((n - 1) as usize);
            assert forall|x: usize| #[trigger] out.contains(x) <==> x < n && keep(x as int) by {
                if out.contains(x) {
                    let i: int = choose|i: int| 0 <= i < out.len() && out[i] == x;
                    if i < rest.len() {
                        assert(rest.contains(x));
                    }
                }
                if x < n && keep(x as int) {
                    if x < n - 1 {
                        assert(rest.contains(x));
                        let i: int = choose|i: int| 0 <= i < rest.len() && rest[i] == x;
                        assert(out[i] == x);
                    } else {
                        assert(out[rest.len() as int] == x);
                    }
                }
            }
        }
    }
}

/// Keeping part of an ascending list keeps it ascending.
pub proof fn lemma_kept(names: Seq<usize>, keep: spec_fn(int) -> bool)
    ensures
        ascending(names) ==> ascending(kept(names, keep)),
        forall|x: usize|
            #[trigger] kept(names, keep).contains(x) <==> names.contains(x) && keep(x as int),
        forall|bound: int| #[trigger] bounded(names, bound) ==> bounded(kept(names, keep), bound),
    decreases names.len(),
{
    let out: Seq<usize> = kept(names, keep);
    if names.len() > 0 {
        let front: Seq<usize> = names.drop_last();
        let rest: Seq<usize> = kept(front, keep);
        let last: usize = names.last();
        lemma_kept(front, keep);
        assert forall|x: usize| #[trigger] names.contains(x) <==> front.contains(x) || x == last by {
            if names.contains(x) {
                let i: int = choose|i: int| 0 <= i < names.len() && names[i] == x;
                if i < front.len() {
                    assert(front[i] == x);
                }
            }
            if front.contains(x) {
                let i: int = choose|i: int| 0 <= i < front.len() && front[i] == x;
                assert(names[i] == x);
            }
            assert(names[names.len() - 1] == last);
        }
        if keep(last as int) {
            assert forall|x: usize| #[trigger] out.contains(x) <==> rest.contains(x) || x
                == last by {
                if out.contains(x) {
                    let i: int = choose|i: int| 0 <= i < out.len() && out[i] == x;
                    if i < rest.len() {
                        assert(rest[i] == x);
                    }
                }
                if rest.contains(x) {
                    let i: int = choose|i: int| 0 <= i < rest.len() && rest[i] == x;
                    assert(out[i] == x);
                }
                assert(out[rest.len() as int] == last);
            }
        }
        if ascending(names) {
            assert forall|i: int, j: int| 0 <= i < j < front.len() implies front[i] < front[j] by {
                assert(names[i] < names[j]);
            }
            assert forall|i: int, j: int| 0 <= i < j < out.len() implies out[i] < out[j] by {
                if j == rest.len() {
                    assert(rest.contains(rest[i]));
                    assert(front.contains(rest[i]));
                    let k: int = choose|k: int| 0 <= k < front.len() && front[k] == rest[i];
                    assert(names[k] < names[names.len() - 1]);
                } else {
                    assert(rest[i] < rest[j]);
                }
            }
        }
        assert forall|bound: int| #[trigger] bounded(names, bound) implies bounded(out, bound) by {
            assert forall|i: int| 0 <= i < front.len() implies (#[trigger] front[i]) < bound by {
                assert(names[i] < bound);
            }
            assert(bounded(front, bound));
            assert(names[names.len() - 1] < bound);
        }
    }
}

/// Conditions that agree on a list keep the same part of it.
pub proof fn lemma_kept_alike(
    names: Seq<usize>,
    one: spec_fn(int) -> bool,
    other: spec_fn(int) -> bool,
)
    requires
        forall|k: int| 0 <= k < names.len() ==> one(#[trigger] names[k] as int) == other(names[k] as int),
    ensures
        kept(names, one) == kept(names, other),
    decreases names.len(),
{
    if names.len() > 0 {
        let front: Seq<usize> = names.drop_last();
        assert forall|k: int| 0 <= k < front.len() implies one(#[trigger] front[k] as int) == other(
            front[k] as int,
        ) by {
            assert(front[k] == names[k]);
        }
        lemma_kept_alike(front, one, other);
        assert(names[names.len() - 1] == names.last());
    }
}

/// Two ascending lists that name the same names are the same list.
pub proof fn lemma_same_names(a: Seq<usize>, b: Seq<usize>)
    requires
        ascending(a),
        ascending(b),
        forall|x: usize| #[trigger] a.contains(x) <==> b.contains(x),
    ensures
        a == b,
    decreases a.len() + b.len(),
{
    if a.len() == 0 {
        if b.len() > 0 {
            assert(b.contains(b[0]));
            assert(a.contains(b[0]));
        }
    } else if b.len() == 0 {
        assert(a.contains(a[0]));
        assert(b.contains(a[0]));
    } else {
        lemma_head(a);
        lemma_head(b);
        assert(a.contains(a[0]));
        assert(b.contains(a[0]));
        assert(b.contains(b[0]));
        assert(a.contains(b[0]));
        assert(a[0] == b[0]);
        assert forall|x: usize| #[trigger] a.skip(1).contains(x) <==> b.skip(1).contains(x) by {
            assert(a.contains(x) <==> b.contains(x));
        }
        lemma_same_names(a.skip(1), b.skip(1));
        assert(a =~= seq![a[0]] + a.skip(1));
        assert(b =~= seq![b[0]] + b.skip(1));
    }
}

proof fn lemma_inserted_at(names: Seq<usize>, name: usize, at: int)
    requires
        sorted(names),
        0 <= at <= names.len(),
        forall|i: int| 0 <= i < at ==> names[i] < name,
        forall|i: int| at <= i < names.len() ==> names[i] >= name,
    ensures
        at < names.len() && names[at] == name ==> inserted(names, name) == names,
        at == names.len() || names[at] != name ==> inserted(names, name) == names.insert(at, name),
    decreases names.len(),
{
    if names.len() == 0 || names.last() < name {
        assert(at == names.len());
        assert(names.insert(at, name) =~= names.push(name));
    } else if names.last() == name {
        assert(names[names.len() - 1] == name);
        if at < names.len() {
            assert(names[at] <= names[names.len() - 1]);
        }
    } else {
        let front: Seq<usize> = names.drop_last();
        lemma_inserted_at(front, name, at);
        if at < front.len() && front[at] == name {
            assert(front.push(names.last()) =~= names);
        } else {
            assert(front.insert(at, name).push(names.last()) =~= names.insert(at, name));
        }
    }
}

/// Insert `asset` into an ascending list, if it is not there.
pub fn insert_sorted(names: &mut Vec<usize>, asset: usize)
    requires
        sorted(old(names)@),
    ensures
        final(names)@ == inserted(old(names)@, asset),
{
    let mut low: usize = 0;
    let mut high: usize = names.len();
    while low < high
        invariant
            low <= high <= names@.len(),
            sorted(names@),
            forall|i: int| 0 <= i < low ==> names@[i] < asset,
            forall|i: int| high <= i < names@.len() ==> names@[i] >= asset,
        decreases high - low,
    {
        let middle: usize = low + (high - low) / 2;
        if names[middle] < asset {
            low = middle + 1;
        } else {
            high = middle;
        }
    }
    proof {
        lemma_inserted_at(names@, asset, low as int);
    }
    if low == names.len() || names[low] != asset {
        names.insert(low, asset);
    }
}

/// The union of two ascending lists, ascending.
pub fn merged(left: &[usize], right: &[usize]) -> (out: Vec<usize>)
    ensures
        out@ == union(left@, right@),
        ascending(left@) && ascending(right@) ==> ascending(out@) && forall|x: usize| #[trigger]
            out@.contains(x) <==> left@.contains(x) || right@.contains(x),
{
    let mut out: Vec<usize> = Vec::new();
    let mut first: usize = 0;
    let mut second: usize = 0;
    proof {
        assert(left@.skip(0) =~= left@);
        assert(right@.skip(0) =~= right@);
        assert(out@ + union(left@, right@) =~= union(left@, right@));
        if ascending(left@) && ascending(right@) {
            lemma_union(left@, right@);
        }
    }
    while first < left.len() && second < right.len()
        invariant
            first <= left@.len(),
            second <= right@.len(),
            out@ + union(left@.skip(first as int), right@.skip(second as int)) == union(
                left@,
                right@,
            ),
        decreases left@.len() - first + right@.len() - second,
    {
        let ghost l: Seq<usize> = left@.skip(first as int);
        let ghost r: Seq<usize> = right@.skip(second as int);
        let ghost before: Seq<usize> = out@;
        proof {
            assert(l.skip(1) =~= left@.skip(first + 1));
            assert(r.skip(1) =~= right@.skip(second + 1));
        }
        if left[first] < right[second] {
            out.push(left[first]);
            first = first + 1;
        } else if right[second] < left[first] {
            out.push(right[second]);
            second = second + 1;
        } else {
            out.push(left[first]);
            first = first + 1;
            second = second + 1;
        }
        proof {
            let rest: Seq<usize> = union(left@.skip(first as int), right@.skip(second as int));
            assert(out@ + rest =~= before + (seq![out@.last()] + rest));
        }
    }
    let ghost done: Seq<usize> = out@;
    let ghost l: Seq<usize> = left@.skip(first as int);
    let ghost r: Seq<usize> = right@.skip(second as int);
    while first < left.len()
        invariant
            first <= left@.len(),
            out@ + left@.skip(first as int) == done + l,
        decreases left@.len() - first,
    {
        proof {
            assert(out@.push(left@[first as int]) + left@.skip(first + 1) =~= out@ + left@.skip(
                first as int,
            ));
        }
        out.push(left[first]);
        first = first + 1;
    }
    proof {
        assert(out@ + left@.skip(first as int) =~= out@);
    }
    while second < right.len()
        invariant
            second <= right@.len(),
            out@ + right@.skip(second as int) == (done + l) + r,
        decreases right@.len() - second,
    {
        proof {
            assert(out@.push(right@[second as int]) + right@.skip(second + 1) =~= out@
                + right@.skip(second as int));
        }
        out.push(right[second]);
        second = second + 1;
    }
    proof {
        assert(out@ + right@.skip(second as int) =~= out@);
        assert((done + l) + r =~= done + union(l, r));
    }
    out
}

}
