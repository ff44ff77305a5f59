//! Shapes and indices of multi-dimensional arrays, as mathematics.
use vstd::prelude::*;

verus! {

/// The index `(i)`.
#[verifier::inline]
pub open spec fn ix1(i: int) -> Seq<int> {
    Seq::<int>::empty().push(i)
}

/// The index `(i, j)`.
#[verifier::inline]
pub open spec fn ix2(i: int, j: int) -> Seq<int> {
    Seq::<int>::empty().push(i).push(j)
}

/// The index `(i, j, k)`.
#[verifier::inline]
pub open spec fn ix3(i: int, j: int, k: int) -> Seq<int> {
    Seq::<int>::empty().push(i).push(j).push(k)
}

/// The index `(i, j, k, l)`.
#[verifier::inline]
pub open spec fn ix4(i: int, j: int, k: int, l: int) -> Seq<int> {
    Seq::<int>::empty().push(i).push(j).push(k).push(l)
}

/// The shape `(a)`.
#[verifier::inline]
pub open spec fn shape1(a: nat) -> Seq<nat> {
    Seq::<nat>::empty().push(a)
}

/// The shape `(a, b)`.
#[verifier::inline]
pub open spec fn shape2(a: nat, b: nat) -> Seq<nat> {
    Seq::<nat>::empty().push(a).push(b)
}

/// The shape `(a, b, c)`.
#[verifier::inline]
pub open spec fn shape3(a: nat, b: nat, c: nat) -> Seq<nat> {
    Seq::<nat>::empty().push(a).push(b).push(c)
}

/// The shape `(a, b, c, d)`.
#[verifier::inline]
pub open spec fn shape4(a: nat, b: nat, c: nat, d: nat) -> Seq<nat> {
    Seq::<nat>::empty().push(a).push(b).push(c).push(d)
}

/// `i` names an element of an array of shape `dims`.
pub open spec fn within(i: Seq<int>, dims: Seq<nat>) -> bool {
    &&& i.len() == dims.len()
    &&& forall|k: int| 0 <= k < dims.len() ==> 0 <= #[trigger] i[k] < dims[k]
}

/// An array of shape `dims` has at least one element.
pub open spec fn inhabited(dims: Seq<nat>) -> bool {
    forall|k: int| 0 <= k < dims.len() ==> #[trigger] dims[k] > 0
}

/// `n`, or one where `n` is zero.
pub open spec fn at_least_one(n: nat) -> nat {
    if n == 0 {
        1
    } else {
        n
    }
}

/// The product of the sizes, a size of zero counted as one: no product of some of the sizes, in
/// whatever order, is larger.
pub open spec fn volume(dims: Seq<nat>) -> nat
    decreases dims.len(),
{
    if dims.len() == 0 {
        1
    } else {
        volume(dims.drop_last()) * at_least_one(dims.last())
    }
}

/// An array of this shape can be allocated with elements of up to eight bytes: its size in bytes
/// does not exceed what one allocation may hold.
pub open spec fn fits(dims: Seq<nat>) -> bool {
    volume(dims) * 8 <= isize::MAX
}

/// `fits` of a matrix, with the product written out.
pub open spec fn matrix_fits(a: nat, b: nat) -> bool {
    at_least_one(a) * at_least_one(b) * 8 <= isize::MAX
}

/// `fits` of a batch of matrices, with the product written out.
pub open spec fn batch_fits(a: nat, b: nat, c: nat) -> bool {
    at_least_one(a) * at_least_one(b) * at_least_one(c) * 8 <= isize::MAX
}

/// The number of elements of an array of shape `dims`.
pub open spec fn count(dims: Seq<nat>) -> nat
    decreases dims.len(),
{
    if dims.len() == 0 {
        1
    } else {
        count(dims.drop_last()) * dims.last()
    }
}

/// The place of the element `i` when the elements of an array of shape `dims` are listed in
/// row-major order.
pub open spec fn offset(i: Seq<int>, dims: Seq<nat>) -> int
    decreases dims.len(),
{
    if dims.len() == 0 {
        0
    } else {
        offset(i.drop_last(), dims.drop_last()) * dims.last() + i.last()
    }
}

/// `s` with the entries at `a` and `b` exchanged.
pub open spec fn swapped<T>(s: Seq<T>, a: int, b: int) -> Seq<T> {
    s.update(a, s[b]).update(b, s[a])
}

/// The size that an array of shape `dims` shows at place `k` of a shape of `rank` places, when
/// ones are put in front of `dims` to make up the difference.
pub open spec fn padded(dims: Seq<nat>, rank: int, k: int) -> nat {
    if k < rank - dims.len() {
        1
    } else {
        dims[k - (rank - dims.len())]
    }
}

/// The larger of the two ranks.
pub open spec fn common_rank(a: Seq<nat>, b: Seq<nat>) -> int {
    if a.len() < b.len() {
        b.len() as int
    } else {
        a.len() as int
    }
}

/// Arrays of the two shapes can be combined element by element once sizes of one are stretched.
pub open spec fn broadcasts(a: Seq<nat>, b: Seq<nat>) -> bool {
    let rank = common_rank(a, b);
    forall|k: int|
        0 <= k < rank ==> {
            ||| #[trigger] padded(a, rank, k) == padded(b, rank, k)
            ||| padded(a, rank, k) == 1
            ||| padded(b, rank, k) == 1
        }
}

/// The size that two sizes are stretched to.
#[verifier::inline]
pub open spec fn wide(a: nat, b: nat) -> nat {
    if a == 1 {
        b
    } else {
        a
    }
}

/// The place in a dimension of size `n` that is used at place `i` of the combination.
#[verifier::inline]
pub open spec fn pinned(i: int, n: nat) -> int {
    if n == 1 {
        0
    } else {
        i
    }
}

/// The shape of that combination.
pub open spec fn broadcast(a: Seq<nat>, b: Seq<nat>) -> Seq<nat> {
    let rank = common_rank(a, b);
    Seq::new(rank as nat, |k: int| wide(padded(a, rank, k), padded(b, rank, k)))
}

/// The element of an operand of shape `dims` that is used at index `i` of the combination.
pub open spec fn source(i: Seq<int>, dims: Seq<nat>) -> Seq<int> {
    Seq::new(dims.len(), |k: int| pinned(i[i.len() - dims.len() + k], dims[k]))
}

// What the operations on indices and shapes do to those that are written out.
pub broadcast proof fn lemma_swap4<A>(a: A, b: A, c: A, d: A)
    ensures
        #[trigger] swapped(Seq::<A>::empty().push(a).push(b).push(c).push(d), 2, 3)
            == Seq::<A>::empty().push(a).push(b).push(d).push(c),
{
    assert(swapped(Seq::<A>::empty().push(a).push(b).push(c).push(d), 2, 3)
        =~= Seq::<A>::empty().push(a).push(b).push(d).push(c));
}

pub broadcast proof fn lemma_remove4_1<A>(a: A, b: A, c: A, d: A)
    ensures
        #[trigger] Seq::<A>::empty().push(a).push(b).push(c).push(d).remove(1)
            == Seq::<A>::empty().push(a).push(c).push(d),
{
    assert(Seq::<A>::empty().push(a).push(b).push(c).push(d).remove(1)
        =~= Seq::<A>::empty().push(a).push(c).push(d));
}

pub broadcast proof fn lemma_remove4_2<A>(a: A, b: A, c: A, d: A)
    ensures
        #[trigger] Seq::<A>::empty().push(a).push(b).push(c).push(d).remove(2)
            == Seq::<A>::empty().push(a).push(b).push(d),
{
    assert(Seq::<A>::empty().push(a).push(b).push(c).push(d).remove(2)
        =~= Seq::<A>::empty().push(a).push(b).push(d));
}

pub broadcast proof fn lemma_remove4_3<A>(a: A, b: A, c: A, d: A)
    ensures
        #[trigger] Seq::<A>::empty().push(a).push(b).push(c).push(d).remove(3)
            == Seq::<A>::empty().push(a).push(b).push(c),
{
    assert(Seq::<A>::empty().push(a).push(b).push(c).push(d).remove(3)
        =~= Seq::<A>::empty().push(a).push(b).push(c));
}

pub broadcast proof fn lemma_remove3_0<A>(a: A, b: A, c: A)
    ensures
        #[trigger] Seq::<A>::empty().push(a).push(b).push(c).remove(0)
            == Seq::<A>::empty().push(b).push(c),
{
    assert(Seq::<A>::empty().push(a).push(b).push(c).remove(0)
        =~= Seq::<A>::empty().push(b).push(c));
}

pub broadcast proof fn lemma_remove3_1<A>(a: A, b: A, c: A)
    ensures
        #[trigger] Seq::<A>::empty().push(a).push(b).push(c).remove(1)
            == Seq::<A>::empty().push(a).push(c),
{
    assert(Seq::<A>::empty().push(a).push(b).push(c).remove(1)
        =~= Seq::<A>::empty().push(a).push(c));
}

pub broadcast proof fn lemma_remove3_2<A>(a: A, b: A, c: A)
    ensures
        #[trigger] Seq::<A>::empty().push(a).push(b).push(c).remove(2)
            == Seq::<A>::empty().push(a).push(b),
{
    assert(Seq::<A>::empty().push(a).push(b).push(c).remove(2)
        =~= Seq::<A>::empty().push(a).push(b));
}

pub broadcast proof fn lemma_remove2_0<A>(a: A, b: A)
    ensures
        #[trigger] Seq::<A>::empty().push(a).push(b).remove(0) == Seq::<A>::empty().push(b),
{
    assert(Seq::<A>::empty().push(a).push(b).remove(0) =~= Seq::<A>::empty().push(b));
}

pub broadcast proof fn lemma_insert1_0<A>(a: A, x: A)
    ensures
        #[trigger] Seq::<A>::empty().push(a).insert(0, x) == Seq::<A>::empty().push(x).push(a),
{
    assert(Seq::<A>::empty().push(a).insert(0, x) =~= Seq::<A>::empty().push(x).push(a));
}

pub broadcast proof fn lemma_insert2_0<A>(a: A, b: A, x: A)
    ensures
        #[trigger] Seq::<A>::empty().push(a).push(b).insert(0, x)
            == Seq::<A>::empty().push(x).push(a).push(b),
{
    assert(Seq::<A>::empty().push(a).push(b).insert(0, x)
        =~= Seq::<A>::empty().push(x).push(a).push(b));
}

pub broadcast proof fn lemma_insert2_1<A>(a: A, b: A, x: A)
    ensures
        #[trigger] Seq::<A>::empty().push(a).push(b).insert(1, x)
            == Seq::<A>::empty().push(a).push(x).push(b),
{
    assert(Seq::<A>::empty().push(a).push(b).insert(1, x)
        =~= Seq::<A>::empty().push(a).push(x).push(b));
}

pub broadcast proof fn lemma_insert2_2<A>(a: A, b: A, x: A)
    ensures
        #[trigger] Seq::<A>::empty().push(a).push(b).insert(2, x)
            == Seq::<A>::empty().push(a).push(b).push(x),
{
    assert(Seq::<A>::empty().push(a).push(b).insert(2, x)
        =~= Seq::<A>::empty().push(a).push(b).push(x));
}

pub broadcast proof fn lemma_insert3_1<A>(a: A, b: A, c: A, x: A)
    ensures
        #[trigger] Seq::<A>::empty().push(a).push(b).push(c).insert(1, x)
            == Seq::<A>::empty().push(a).push(x).push(b).push(c),
{
    assert(Seq::<A>::empty().push(a).push(b).push(c).insert(1, x)
        =~= Seq::<A>::empty().push(a).push(x).push(b).push(c));
}

pub broadcast proof fn lemma_insert3_2<A>(a: A, b: A, c: A, x: A)
    ensures
        #[trigger] Seq::<A>::empty().push(a).push(b).push(c).insert(2, x)
            == Seq::<A>::empty().push(a).push(b).push(x).push(c),
{
    assert(Seq::<A>::empty().push(a).push(b).push(c).insert(2, x)
        =~= Seq::<A>::empty().push(a).push(b).push(x).push(c));
}

pub broadcast proof fn lemma_insert3_3<A>(a: A, b: A, c: A, x: A)
    ensures
        #[trigger] Seq::<A>::empty().push(a).push(b).push(c).insert(3, x)
            == Seq::<A>::empty().push(a).push(b).push(c).push(x),
{
    assert(Seq::<A>::empty().push(a).push(b).push(c).insert(3, x)
        =~= Seq::<A>::empty().push(a).push(b).push(c).push(x));
}

pub broadcast proof fn lemma_update3_1<A>(a: A, b: A, c: A, x: A)
    ensures
        #[trigger] Seq::<A>::empty().push(a).push(b).push(c).update(1, x)
            == Seq::<A>::empty().push(a).push(x).push(c),
{
    assert(Seq::<A>::empty().push(a).push(b).push(c).update(1, x)
        =~= Seq::<A>::empty().push(a).push(x).push(c));
}

pub broadcast proof fn lemma_update3_2<A>(a: A, b: A, c: A, x: A)
    ensures
        #[trigger] Seq::<A>::empty().push(a).push(b).push(c).update(2, x)
            == Seq::<A>::empty().push(a).push(b).push(x),
{
    assert(Seq::<A>::empty().push(a).push(b).push(c).update(2, x)
        =~= Seq::<A>::empty().push(a).push(b).push(x));
}

pub broadcast proof fn lemma_drop_last2<A>(a: A, b: A)
    ensures
        #[trigger] Seq::<A>::empty().push(a).push(b).drop_last() == Seq::<A>::empty().push(a),
{
    assert(Seq::<A>::empty().push(a).push(b).drop_last() =~= Seq::<A>::empty().push(a));
}

pub broadcast proof fn lemma_drop_last3<A>(a: A, b: A, c: A)
    ensures
        #[trigger] Seq::<A>::empty().push(a).push(b).push(c).drop_last()
            == Seq::<A>::empty().push(a).push(b),
{
    assert(Seq::<A>::empty().push(a).push(b).push(c).drop_last()
        =~= Seq::<A>::empty().push(a).push(b));
}

pub broadcast proof fn lemma_drop_last4<A>(a: A, b: A, c: A, d: A)
    ensures
        #[trigger] Seq::<A>::empty().push(a).push(b).push(c).push(d).drop_last()
            == Seq::<A>::empty().push(a).push(b).push(c),
{
    assert(Seq::<A>::empty().push(a).push(b).push(c).push(d).drop_last()
        =~= Seq::<A>::empty().push(a).push(b).push(c));
}

pub broadcast proof fn lemma_within3(i: int, j: int, k: int, a: nat, b: nat, c: nat)
    ensures
        #[trigger] within(ix3(i, j, k), shape3(a, b, c)) <==> {
            &&& 0 <= i < a
            &&& 0 <= j < b
            &&& 0 <= k < c
        },
{
    let s = ix3(i, j, k);
    let t = shape3(a, b, c);
    if within(s, t) {
        assert(0 <= s[0] < t[0] && 0 <= s[1] < t[1] && 0 <= s[2] < t[2]);
    }
}

pub broadcast proof fn lemma_within4(
    i: int,
    j: int,
    k: int,
    l: int,
    a: nat,
    b: nat,
    c: nat,
    d: nat,
)
    ensures
        #[trigger] within(ix4(i, j, k, l), shape4(a, b, c, d)) <==> {
            &&& 0 <= i < a
            &&& 0 <= j < b
            &&& 0 <= k < c
            &&& 0 <= l < d
        },
{
    let s = ix4(i, j, k, l);
    let t = shape4(a, b, c, d);
    if within(s, t) {
        assert(0 <= s[0] < t[0] && 0 <= s[1] < t[1] && 0 <= s[2] < t[2] && 0 <= s[3] < t[3]);
    }
}

pub broadcast proof fn lemma_inhabited3(a: nat, b: nat, c: nat)
    ensures
        #[trigger] inhabited(shape3(a, b, c)) <==> (a > 0 && b > 0 && c > 0),
{
    let t = shape3(a, b, c);
    if inhabited(t) {
        assert(t[0] > 0 && t[1] > 0 && t[2] > 0);
    }
}

pub broadcast proof fn lemma_broadcast2(a: nat, b: nat, w: nat, x: nat)
    ensures
        #[trigger] broadcast(shape2(a, b), shape2(w, x)) == shape2(wide(a, w), wide(b, x)),
{
    assert(broadcast(shape2(a, b), shape2(w, x)) =~= shape2(wide(a, w), wide(b, x)));
}

pub broadcast proof fn lemma_broadcast3(a: nat, b: nat, c: nat, w: nat, x: nat, y: nat)
    ensures
        #[trigger] broadcast(shape3(a, b, c), shape3(w, x, y)) == shape3(
            wide(a, w),
            wide(b, x),
            wide(c, y),
        ),
{
    let s = shape3(wide(a, w), wide(b, x), wide(c, y));
    assert(broadcast(shape3(a, b, c), shape3(w, x, y)) =~= s);
}

pub broadcast proof fn lemma_broadcast4(
    a: nat,
    b: nat,
    c: nat,
    d: nat,
    w: nat,
    x: nat,
    y: nat,
    z: nat,
)
    ensures
        #[trigger] broadcast(shape4(a, b, c, d), shape4(w, x, y, z)) == shape4(
            wide(a, w),
            wide(b, x),
            wide(c, y),
            wide(d, z),
        ),
{
    let s = shape4(wide(a, w), wide(b, x), wide(c, y), wide(d, z));
    assert(broadcast(shape4(a, b, c, d), shape4(w, x, y, z)) =~= s);
}

pub broadcast proof fn lemma_source2(i: int, j: int, a: nat, b: nat)
    ensures
        #[trigger] source(ix2(i, j), shape2(a, b)) == ix2(pinned(i, a), pinned(j, b)),
{
    assert(source(ix2(i, j), shape2(a, b)) =~= ix2(pinned(i, a), pinned(j, b)));
}

pub broadcast proof fn lemma_source3(i: int, j: int, k: int, a: nat, b: nat, c: nat)
    ensures
        #[trigger] source(ix3(i, j, k), shape3(a, b, c)) == ix3(
            pinned(i, a),
            pinned(j, b),
            pinned(k, c),
        ),
{
    let s = ix3(pinned(i, a), pinned(j, b), pinned(k, c));
    assert(source(ix3(i, j, k), shape3(a, b, c)) =~= s);
}

pub broadcast proof fn lemma_source4(
    i: int,
    j: int,
    k: int,
    l: int,
    a: nat,
    b: nat,
    c: nat,
    d: nat,
)
    ensures
        #[trigger] source(ix4(i, j, k, l), shape4(a, b, c, d)) == ix4(
            pinned(i, a),
            pinned(j, b),
            pinned(k, c),
            pinned(l, d),
        ),
{
    let s = ix4(pinned(i, a), pinned(j, b), pinned(k, c), pinned(l, d));
    assert(source(ix4(i, j, k, l), shape4(a, b, c, d)) =~= s);
}

/// What the operations on indices and shapes do to those that are written out.
pub broadcast group group_index {
    lemma_swap4,
    lemma_remove4_1,
    lemma_remove4_2,
    lemma_remove4_3,
    lemma_remove3_0,
    lemma_remove3_1,
    lemma_remove3_2,
    lemma_remove2_0,
    lemma_insert1_0,
    lemma_insert2_0,
    lemma_insert2_1,
    lemma_insert2_2,
    lemma_insert3_1,
    lemma_insert3_2,
    lemma_insert3_3,
    lemma_update3_1,
    lemma_update3_2,
    lemma_drop_last2,
    lemma_drop_last3,
    lemma_drop_last4,
    lemma_within3,
    lemma_inhabited3,
    lemma_within4,
    lemma_broadcast2,
    lemma_source2,
    lemma_broadcast3,
    lemma_source3,
    lemma_broadcast4,
    lemma_source4,
}

/// The product of the sizes, written out.
pub proof fn lemma_volume(a: nat, b: nat, c: nat, d: nat)
    ensures
        volume(shape1(a)) == at_least_one(a),
        volume(shape2(a, b)) == at_least_one(a) * at_least_one(b),
        volume(shape3(a, b, c)) == at_least_one(a) * at_least_one(b) * at_least_one(c),
        volume(shape4(a, b, c, d)) == at_least_one(a) * at_least_one(b) * at_least_one(c)
            * at_least_one(d),
{
    broadcast use group_index;

    reveal_with_fuel(volume, 5);
    let one = volume(Seq::<nat>::empty());
    assert(volume(shape1(a)) == one * at_least_one(a));
    assert(one * at_least_one(a) == at_least_one(a)) by (nonlinear_arith)
        requires
            one == 1,
    ;
    assert(volume(shape2(a, b)) == volume(shape1(a)) * at_least_one(b));
    assert(volume(shape3(a, b, c)) == volume(shape2(a, b)) * at_least_one(c));
    assert(volume(shape4(a, b, c, d)) == volume(shape3(a, b, c)) * at_least_one(d));
}

/// A matrix keeps the number and the order of its elements when dimensions of size one are put in.
pub proof fn lemma_spread(d: nat, n: nat)
    ensures
        count(shape4(1, d, 1, n)) == count(shape2(d, n)),
        forall|i: int, j: int|
            #![trigger ix4(0, i, 0, j)]
            #![trigger ix2(i, j)]
            offset(ix4(0, i, 0, j), shape4(1, d, 1, n)) == offset(ix2(i, j), shape2(d, n)),
{
    broadcast use group_index;

    reveal_with_fuel(count, 5);
    reveal_with_fuel(offset, 5);
    assert(count(shape2(d, n)) == count(shape1(d)) * n);
    assert(count(shape4(1, d, 1, n)) == count(shape3(1, d, 1)) * n);
    let one = count(Seq::<nat>::empty());
    let row = count(shape1(1));
    assert(count(shape1(d)) == one * d);
    assert(row == one * 1);
    assert(count(shape2(1, d)) == row * d);
    assert(count(shape3(1, d, 1)) == count(shape2(1, d)) * 1);
    assert(one * d == row * d) by (nonlinear_arith)
        requires
            one == 1,
            row == 1,
    ;
    assert forall|i: int, j: int|
        #![trigger ix4(0, i, 0, j)]
        #![trigger ix2(i, j)]
        offset(ix4(0, i, 0, j), shape4(1, d, 1, n)) == offset(ix2(i, j), shape2(d, n)) by {
        assert(offset(ix2(i, j), shape2(d, n)) == offset(ix1(i), shape1(d)) * n + j);
        assert(offset(ix4(0, i, 0, j), shape4(1, d, 1, n)) == offset(ix3(0, i, 0), shape3(1, d, 1))
            * n + j);
        let first = offset(ix1(0), shape1(1));
        let none = offset(Seq::<int>::empty(), Seq::<nat>::empty());
        assert(offset(ix1(i), shape1(d)) == none * d + i);
        assert(first == none * 1 + 0);
        assert(offset(ix3(0, i, 0), shape3(1, d, 1)) == offset(ix2(0, i), shape2(1, d)) * 1 + 0);
        assert(offset(ix2(0, i), shape2(1, d)) == first * d + i);
        assert(none * d == first * d) by (nonlinear_arith)
            requires
                none == 0,
                first == 0,
        ;
    }
}

} // verus!
