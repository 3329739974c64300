use vstd::prelude::*;

verus! {

/// A 4x4 matrix stored as four rows.
pub type Mat4<T> = [[T; 4]; 4];

/// `t` is the transpose of `m`: row `i` of `t` is column `i` of `m`.
pub open spec fn is_transpose<T>(m: Mat4<T>, t: Mat4<T>) -> bool {
    forall|i: int, j: int| 0 <= i < 4 && 0 <= j < 4 ==> #[trigger] t[i][j] == m[j][i]
}

/// Swaps rows and columns of a 4x4 matrix.
pub fn transpose<T: Copy>(m: Mat4<T>) -> (r: Mat4<T>)
    ensures
        is_transpose(m, r),
{
    let mut r: Mat4<T> = m;
    let mut i: usize = 0;
    while i < 4
        invariant
            0 <= i <= 4,
            forall|a: int, b: int| 0 <= a < i && 0 <= b < 4 ==> #[trigger] r[a][b] == m[b][a],
        decreases 4 - i,
    {
        let mut row: [T; 4] = r[i];
        let mut j: usize = 0;
        while j < 4
            invariant
                0 <= i < 4,
                0 <= j <= 4,
                forall|b: int| 0 <= b < j ==> #[trigger] row[b] == m[b][i as int],
            decreases 4 - j,
        {
            row[j] = m[j][i];
            j = j + 1;
        }
        r[i] = row;
        i = i + 1;
    }
    r
}

/// Transposing twice gives back the original matrix: if `t` is the transpose
/// of `m` and `tt` the transpose of `t`, then `tt` equals `m` entry by entry.
pub proof fn lemma_transpose_involution<T>(m: Mat4<T>, t: Mat4<T>, tt: Mat4<T>)
    requires
        is_transpose(m, t),
        is_transpose(t, tt),
    ensures
        tt == m,
{
    assert forall|i: int| 0 <= i < 4 implies #[trigger] tt[i] == m[i] by {
        assert forall|j: int| 0 <= j < 4 implies #[trigger] tt[i][j] == m[i][j] by {
            assert(tt[i][j] == t[j][i]);
        }
        assert(tt[i] =~= m[i]);
    }
    assert(tt =~= m);
}

} // verus!
