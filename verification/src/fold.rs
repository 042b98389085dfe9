//! Left folds by a function that the caller hands in.

use vstd::prelude::*;

verus! {

/// Whether `trace` lists the accumulators of folding `items` from the left with
/// `f`, from `init` to the final one.
pub open spec fn folds<A, B, F: Fn(A, B) -> A>(
    f: F,
    init: A,
    items: Seq<B>,
    trace: Seq<A>,
) -> bool {
    &&& trace.len() == items.len() + 1
    &&& trace[0] == init
    &&& forall|k: int|
        0 <= k < items.len() ==> f.ensures((trace[k], items[k]), #[trigger] trace[k + 1])
}

/// Whether `r` is an outcome of folding `items` from the left with `f`.
pub open spec fn folds_to<A, B, F: Fn(A, B) -> A>(f: F, init: A, items: Seq<B>, r: A) -> bool {
    exists|trace: Seq<A>| #[trigger] folds(f, init, items, trace) && trace.last() == r
}

/// Whether `f` has one outcome per pair of arguments.
pub open spec fn functional<A, B, F: Fn(A, B) -> A>(f: F) -> bool {
    forall|a: A, b: B, r: A, s: A|
        #[trigger] f.ensures((a, b), r) && #[trigger] f.ensures((a, b), s) ==> r == s
}

/// Folding nothing leaves the initial value.
pub proof fn lemma_folds_to_empty<A, B, F: Fn(A, B) -> A>(f: F, init: A)
    ensures
        folds_to(f, init, Seq::<B>::empty(), init),
{
    assert(folds(f, init, Seq::<B>::empty(), seq![init]));
}

/// One more step extends a fold by one item.
pub proof fn lemma_folds_to_push<A, B, F: Fn(A, B) -> A>(
    f: F,
    init: A,
    items: Seq<B>,
    r: A,
    item: B,
    next: A,
)
    requires
        folds_to(f, init, items, r),
        f.ensures((r, item), next),
    ensures
        folds_to(f, init, items.push(item), next),
{
    let trace = choose|trace: Seq<A>| #[trigger] folds(f, init, items, trace) && trace.last() == r;
    let longer = trace.push(next);
    assert forall|k: int| 0 <= k < items.push(item).len() implies f.ensures(
        (longer[k], items.push(item)[k]),
        #[trigger] longer[k + 1],
    ) by {
        if k < items.len() {
            assert(longer[k + 1] == trace[k + 1]);
        }
    }
    assert(folds(f, init, items.push(item), longer));
}

/// Folding with a function of one outcome has one outcome.
pub proof fn law_fold_unique<A, B, F: Fn(A, B) -> A>(f: F, init: A, items: Seq<B>, r: A, s: A)
    requires
        functional(f),
        folds_to(f, init, items, r),
        folds_to(f, init, items, s),
    ensures
        r == s,
{
    let t = choose|trace: Seq<A>| #[trigger] folds(f, init, items, trace) && trace.last() == r;
    let u = choose|trace: Seq<A>| #[trigger] folds(f, init, items, trace) && trace.last() == s;
    lemma_traces_agree(f, init, items, t, u, items.len() as int);
}

proof fn lemma_traces_agree<A, B, F: Fn(A, B) -> A>(
    f: F,
    init: A,
    items: Seq<B>,
    t: Seq<A>,
    u: Seq<A>,
    k: int,
)
    requires
        functional(f),
        folds(f, init, items, t),
        folds(f, init, items, u),
        0 <= k <= items.len(),
    ensures
        t[k] == u[k],
    decreases k,
{
    if k > 0 {
        lemma_traces_agree(f, init, items, t, u, k - 1);
        assert(f.ensures((t[k - 1], items[k - 1]), t[k - 1 + 1]));
        assert(f.ensures((u[k - 1], items[k - 1]), u[k - 1 + 1]));
    }
}

} // verus!
