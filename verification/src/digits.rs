//! Digit concatenation: packing a run of six decimal digits into the
//! three numbers formed by its first three, next two, and last digit.

use vstd::prelude::*;

verus! {

/// Concatenate six decimal digits `d0 .. d5` into the three numbers
/// `d0 d1 d2`, `d3 d4` and `d5`.
pub fn concat(ints: Vec<usize>) -> (r: Vec<usize>)
    requires
        ints@.len() == 6,
        forall|i: int| 0 <= i < 6 ==> ints@[i] < 10,
    ensures
        r@.len() == 3,
        r@[0] == 100 * ints@[0] + 10 * ints@[1] + ints@[2],
        r@[1] == 10 * ints@[3] + ints@[4],
        r@[2] == ints@[5],
{
    let abc = 100 * ints[0] + 10 * ints[1] + ints[2];
    let de = 10 * ints[3] + ints[4];
    let f = ints[5];
    let mut r: Vec<usize> = Vec::new();
    r.push(abc);
    r.push(de);
    r.push(f);
    r
}

} // verus!
