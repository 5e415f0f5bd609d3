use vstd::prelude::*;

verus! {

/// Turns rows into columns: column `i` of the result gathers element `i` of
/// every row, in row order. The number of columns is the length of the first
/// row; longer rows give up their extra elements.
pub fn transpose<T>(v: Vec<Vec<T>>) -> (r: Vec<Vec<T>>)
    requires
        v@.len() > 0,
        forall|j: int| 0 <= j < v@.len() ==> #[trigger] v@[j]@.len() >= v@[0]@.len(),
    ensures
        r@.len() == v@[0]@.len(),
        forall|i: int| 0 <= i < r@.len() ==> #[trigger] r@[i]@.len() == v@.len(),
        forall|i: int, j: int|
            0 <= i < r@.len() && 0 <= j < v@.len() ==> r@[i]@[j] == v@[j]@[i],
{
    let ghost orig = v@;
    let width = v[0].len();
    let n = v.len();
    let mut rows = v;
    let mut j: usize = 0;
    while j < n
        invariant
            j <= n,
            0 < n == orig.len(),
            width == orig[0]@.len(),
            forall|m: int| 0 <= m < n ==> #[trigger] orig[m]@.len() >= width,
            rows@.len() == n,
            forall|k: int| 0 <= k < j ==> #[trigger] rows@[k]@ == orig[k]@.subrange(0, width as int),
            forall|k: int| j <= k < n ==> #[trigger] rows@[k] == orig[k],
        decreases n - j,
    {
        rows[j].truncate(width);
        j = j + 1;
    }
    // Columns are taken from the back of every row, last column first.
    let mut reversed: Vec<Vec<T>> = Vec::new();
    let mut c: usize = 0;
    while c < width
        invariant
            c <= width,
            0 < n == orig.len(),
            width == orig[0]@.len(),
            forall|m: int| 0 <= m < n ==> #[trigger] orig[m]@.len() >= width,
            rows@.len() == n,
            forall|k: int|
                0 <= k < n ==> #[trigger] rows@[k]@ == orig[k]@.subrange(0, width - c),
            reversed@.len() == c,
            forall|q: int| 0 <= q < c ==> #[trigger] reversed@[q]@.len() == n,
            forall|q: int, k: int|
                0 <= q < c && 0 <= k < n ==> reversed@[q]@[k] == orig[k]@[width - 1 - q],
        decreases width - c,
    {
        let mut column: Vec<T> = Vec::new();
        let mut k: usize = 0;
        while k < n
            invariant
                k <= n,
                c < width,
                0 < n == orig.len(),
                width == orig[0]@.len(),
                forall|m: int| 0 <= m < n ==> #[trigger] orig[m]@.len() >= width,
                rows@.len() == n,
                forall|m: int|
                    0 <= m < k ==> #[trigger] rows@[m]@ == orig[m]@.subrange(0, width - c - 1),
                forall|m: int|
                    k <= m < n ==> #[trigger] rows@[m]@ == orig[m]@.subrange(0, width - c),
                column@.len() == k,
                forall|m: int| 0 <= m < k ==> column@[m] == orig[m]@[width - 1 - c],
            decreases n - k,
        {
            let ghost before = rows@[k as int]@;
            assert(before.len() == width - c);
            let x = rows[k].pop();
            match x {
                Some(x) => {
                    assert(x == orig[k as int]@[width - 1 - c]);
                    assert(rows@[k as int]@ =~= orig[k as int]@.subrange(0, width - c - 1));
                    column.push(x);
                },
                None => {
                    assert(false);
                },
            }
            k = k + 1;
        }
        reversed.push(column);
        c = c + 1;
    }
    let mut r: Vec<Vec<T>> = Vec::new();
    while reversed.len() > 0
        invariant
            0 < n == orig.len(),
            width == orig[0]@.len(),
            forall|m: int| 0 <= m < n ==> #[trigger] orig[m]@.len() >= width,
            reversed@.len() + r@.len() == width,
            forall|q: int| 0 <= q < reversed@.len() ==> #[trigger] reversed@[q]@.len() == n,
            forall|q: int, k: int|
                0 <= q < reversed@.len() && 0 <= k < n ==> reversed@[q]@[k] == orig[k]@[width
                    - 1 - q],
            forall|i: int| 0 <= i < r@.len() ==> #[trigger] r@[i]@.len() == n,
            forall|i: int, k: int|
                0 <= i < r@.len() && 0 <= k < n ==> r@[i]@[k] == orig[k]@[i],
        decreases reversed@.len(),
    {
        let col = reversed.pop();
        match col {
            Some(col) => r.push(col),
            None => {},
        }
    }
    r
}

} // verus!
