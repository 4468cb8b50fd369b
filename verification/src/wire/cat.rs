//! Concatenations of indexed pieces.
use vstd::arithmetic::mul::*;
use vstd::prelude::*;

verus! {

/// `f(0) + f(1) + .. + f(n - 1)`.
pub open spec fn cat<T>(f: spec_fn(int) -> Seq<T>, n: nat) -> Seq<T>
    decreases n,
{
    if n == 0 {
        Seq::empty()
    } else {
        cat(f, (n - 1) as nat) + f(n - 1)
    }
}

/// Equal pieces give equal concatenations.
pub proof fn lemma_same<T>(f: spec_fn(int) -> Seq<T>, g: spec_fn(int) -> Seq<T>, n: nat)
    requires
        forall|i: int| 0 <= i < n ==> #[trigger] f(i) == g(i),
    ensures
        cat(f, n) == cat(g, n),
    decreases n,
{
    if n > 0 {
        lemma_same(f, g, (n - 1) as nat);
        assert(f(n - 1) == g(n - 1));
    }
}

/// A concatenation is as long as the sum of its pieces, so pieces of the same lengths give
/// concatenations of the same length.
pub proof fn lemma_same_len<T>(f: spec_fn(int) -> Seq<T>, g: spec_fn(int) -> Seq<T>, n: nat)
    requires
        forall|i: int| 0 <= i < n ==> (#[trigger] f(i)).len() == g(i).len(),
    ensures
        cat(f, n).len() == cat(g, n).len(),
    decreases n,
{
    if n > 0 {
        lemma_same_len(f, g, (n - 1) as nat);
        assert(f(n - 1).len() == g(n - 1).len());
    }
}

/// `n` pieces of length `w`.
pub proof fn lemma_len<T>(f: spec_fn(int) -> Seq<T>, n: nat, w: nat)
    requires
        forall|i: int| 0 <= i < n ==> (#[trigger] f(i)).len() == w,
    ensures
        cat(f, n).len() == n * w,
    decreases n,
{
    if n > 0 {
        lemma_len(f, (n - 1) as nat, w);
        assert(f(n - 1).len() == w);
        assert((n - 1) * w + w == n * w) by (nonlinear_arith)
            requires
                n >= 1,
        ;
    } else {
        assert(0 * w == 0);
    }
}

/// Where piece `i` stands.
pub proof fn lemma_slice<T>(f: spec_fn(int) -> Seq<T>, n: nat, i: nat)
    requires
        i < n,
    ensures
        cat(f, (i + 1) as nat) == cat(f, i) + f(i as int),
        cat(f, i).len() + f(i as int).len() <= cat(f, n).len(),
        cat(f, n).subrange(
            cat(f, i).len() as int,
            (cat(f, i).len() + f(i as int).len()) as int,
        ) == f(i as int),
        cat(f, n).take(cat(f, i).len() as int) == cat(f, i),
    decreases n,
{
    let m = (n - 1) as nat;
    if i == m {
        assert(cat(f, n).subrange(
            cat(f, i).len() as int,
            (cat(f, i).len() + f(i as int).len()) as int,
        ) =~= f(i as int));
        assert(cat(f, n).take(cat(f, i).len() as int) =~= cat(f, i));
    } else {
        lemma_slice(f, m, i);
        let (a, b) = (cat(f, i).len() as int, (cat(f, i).len() + f(i as int).len()) as int);
        assert(cat(f, n).subrange(a, b) =~= cat(f, m).subrange(a, b));
        assert(cat(f, n).take(a) =~= cat(f, m).take(a));
    }
}

/// Where piece `i` of pieces of length `w` stands.
pub proof fn lemma_even_slice<T>(f: spec_fn(int) -> Seq<T>, n: nat, w: nat, i: nat)
    requires
        i < n,
        forall|i: int| 0 <= i < n ==> (#[trigger] f(i)).len() == w,
    ensures
        0 <= i * w,
        i * w + w <= n * w,
        cat(f, n).len() == n * w,
        cat(f, n).subrange((i * w) as int, (i * w + w) as int) == f(i as int),
{
    lemma_slice(f, n, i);
    lemma_len(f, i, w);
    lemma_len(f, n, w);
    assert(f(i as int).len() == w);
}

/// Pieces of one width are determined by their concatenation.
pub proof fn lemma_even_equal<T>(
    f: spec_fn(int) -> Seq<T>,
    g: spec_fn(int) -> Seq<T>,
    n: nat,
    w: nat,
)
    requires
        cat(f, n) == cat(g, n),
        forall|i: int| 0 <= i < n ==> (#[trigger] f(i)).len() == w,
        forall|i: int| 0 <= i < n ==> (#[trigger] g(i)).len() == w,
    ensures
        forall|i: int| 0 <= i < n ==> #[trigger] f(i) == g(i),
{
    assert forall|i: int| 0 <= i < n implies #[trigger] f(i) == g(i) by {
        lemma_even_slice(f, n, w, i as nat);
        lemma_even_slice(g, n, w, i as nat);
    }
}

} // verus!
