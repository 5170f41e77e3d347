use vstd::prelude::*;

verus! {

/// The bounding box of a set of tiles. With no tile at all, each minimum is
/// `i64::MAX` and each maximum is `i64::MIN`.
#[derive(Debug)]
pub struct GameMapBounds {
    pub max_x: i64,
    pub min_x: i64,
    pub max_y: i64,
    pub min_y: i64,
}

/// The horizontal coordinates of a list of positions.
pub open spec fn xs(pool: Seq<(int, int)>) -> Seq<int> {
    Seq::new(pool.len(), |i: int| pool[i].0)
}

/// The vertical coordinates of a list of positions.
pub open spec fn ys(pool: Seq<(int, int)>) -> Seq<int> {
    Seq::new(pool.len(), |i: int| pool[i].1)
}

/// The least of the values; `i64::MAX` where there is none.
pub open spec fn least(values: Seq<int>) -> int
    decreases values.len(),
{
    if values.len() == 0 {
        i64::MAX as int
    } else {
        let rest = least(values.drop_last());
        if values.last() < rest {
            values.last()
        } else {
            rest
        }
    }
}

/// The greatest of the values; `i64::MIN` where there is none.
pub open spec fn greatest(values: Seq<int>) -> int
    decreases values.len(),
{
    if values.len() == 0 {
        i64::MIN as int
    } else {
        let rest = greatest(values.drop_last());
        if values.last() > rest {
            values.last()
        } else {
            rest
        }
    }
}

/// Half of `sum`, rounded towards zero.
pub open spec fn half(sum: int) -> int {
    if sum >= 0 {
        sum / 2
    } else {
        -((-sum) / 2)
    }
}

/// The positions moved by `(-dx, -dy)`.
pub open spec fn shifted(pool: Seq<(int, int)>, dx: int, dy: int) -> Seq<(int, int)> {
    Seq::new(pool.len(), |i: int| (pool[i].0 - dx, pool[i].1 - dy))
}

/// Whether every value fits the integer type that tiles are stored in.
pub open spec fn all_in_grid(values: Seq<int>) -> bool {
    forall|i: int| 0 <= i < values.len() ==> i64::MIN <= #[trigger] values[i] <= i64::MAX
}

/// Of stored coordinates, `least` is a lower bound and `greatest` an upper
/// bound, and where there is a value at all, each is one of the values.
pub proof fn lemma_least_greatest(values: Seq<int>)
    requires
        all_in_grid(values),
    ensures
        i64::MIN <= least(values) <= i64::MAX,
        i64::MIN <= greatest(values) <= i64::MAX,
        forall|i: int| 0 <= i < values.len() ==> least(values) <= #[trigger] values[i] <= greatest(values),
        values.len() > 0 ==> exists|i: int| 0 <= i < values.len() && values[i] == least(values),
        values.len() > 0 ==> exists|i: int| 0 <= i < values.len() && values[i] == greatest(values),
    decreases values.len(),
{
    if values.len() > 0 {
        let rest = values.drop_last();
        let n = rest.len() as int;
        assert(forall|i: int| 0 <= i < n ==> rest[i] == values[i]);
        lemma_least_greatest(rest);
        assert(values[n] == values.last());
        if rest.len() > 0 {
            let i = choose|i: int| 0 <= i < rest.len() && rest[i] == least(rest);
            assert(values[i] == least(rest));
            let j = choose|j: int| 0 <= j < rest.len() && rest[j] == greatest(rest);
            assert(values[j] == greatest(rest));
        }
    }
}

/// Moving every value by the same distance moves the least and the
/// greatest of them by that distance.
pub proof fn lemma_least_greatest_shift(values: Seq<int>, moved: Seq<int>, d: int)
    requires
        values.len() > 0,
        moved.len() == values.len(),
        forall|i: int| 0 <= i < values.len() ==> #[trigger] moved[i] == values[i] - d,
        all_in_grid(values),
        all_in_grid(moved),
    ensures
        least(moved) == least(values) - d,
        greatest(moved) == greatest(values) - d,
{
    lemma_least_greatest(values);
    lemma_least_greatest(moved);
    let i = choose|i: int| 0 <= i < values.len() && values[i] == least(values);
    let j = choose|j: int| 0 <= j < moved.len() && moved[j] == least(moved);
    assert(moved[i] == values[i] - d);
    assert(moved[j] == values[j] - d);
    assert(least(moved) <= moved[i]);
    assert(least(values) <= values[j]);
    let k = choose|k: int| 0 <= k < values.len() && values[k] == greatest(values);
    let l = choose|l: int| 0 <= l < moved.len() && moved[l] == greatest(moved);
    assert(moved[k] == values[k] - d);
    assert(moved[l] == values[l] - d);
    assert(moved[k] <= greatest(moved));
    assert(values[l] <= greatest(values));
}

/// A value between two stored coordinates stays a stored coordinate when
/// the midpoint of the two is subtracted from it.
pub proof fn lemma_centered_in_grid(low: int, high: int, value: int)
    requires
        i64::MIN <= low <= value <= high <= i64::MAX,
    ensures
        i64::MIN <= value - half(low + high) <= i64::MAX,
        low <= half(low + high) <= high,
        -1 <= (low - half(low + high)) + (high - half(low + high)) <= 1,
        half((low - half(low + high)) + (high - half(low + high))) == 0,
{
}

} // verus!
