//! Central-station selection over a Floyd-Warshall cost matrix.
//!
//! The central station is the vertex whose row sum of distances is smallest;
//! a row that contains the `INF` sentinel (some vertex unreachable) scores
//! `i32::MAX` and is never chosen unless every row scores that high. Row sums
//! are accumulated in 64 bits, so a row whose genuine sum exceeds `i32::MAX`
//! is handled like any other large score instead of overflowing.

use crate::graph::INF;
use vstd::prelude::*;

verus! {

/// Sum of the first `j` entries of a row.
pub open spec fn soma_upto(row: Seq<i32>, j: int) -> int
    decreases j,
{
    if j <= 0 {
        0
    } else {
        soma_upto(row, j - 1) + row[j - 1]
    }
}

/// Score of a candidate row: `i32::MAX` when any of its first `num_v` entries
/// is the `INF` sentinel, the row sum otherwise.
pub open spec fn score(row: Seq<i32>, num_v: int) -> int {
    if exists|t: int| 0 <= t < num_v && row[t] == INF {
        i32::MAX as int
    } else {
        soma_upto(row, num_v)
    }
}

/// Row score, accumulated in 64 bits.
fn pontuacao(row: &Vec<i32>, num_v: usize) -> (s: i64)
    requires
        num_v <= row@.len(),
        num_v <= 0xFFFF_FFFF,
    ensures
        s as int == score(row@, num_v as int),
{
    let mut sum: i64 = 0;
    let mut j: usize = 0;
    while j < num_v
        invariant
            j <= num_v,
            num_v <= row@.len(),
            num_v <= 0xFFFF_FFFF,
            forall|t: int| 0 <= t < j ==> (#[trigger] row@[t]) != INF,
            sum as int == soma_upto(row@, j as int),
            -((j as int) * 0x8000_0000) <= sum as int <= (j as int) * 0x7FFF_FFFF,
        decreases num_v - j,
    {
        if row[j] == INF {
            return i32::MAX as i64;
        }
        sum = sum + row[j] as i64;
        j += 1;
    }
    sum
}

/// Returns the 1-indexed central station: the first row of the matrix whose
/// score is strictly below every earlier row's and at most every later row's.
/// When every row scores at least `i32::MAX` (some vertex unreachable from
/// every candidate), the first station is returned.
pub fn def_central_station(matrix: &Vec<Vec<i32>>, num_v: usize) -> (r: usize)
    requires
        1 <= num_v <= 0xFFFF_FFFF,
        matrix@.len() >= num_v,
        forall|i: int| 0 <= i < num_v ==> (#[trigger] matrix@[i])@.len() >= num_v,
    ensures
        1 <= r <= num_v,
        (exists|i: int|
            0 <= i < num_v && #[trigger] score(matrix@[i]@, num_v as int) < i32::MAX) ==> ({
            &&& score(matrix@[r - 1]@, num_v as int) < i32::MAX
            &&& forall|i: int|
                0 <= i < num_v ==> #[trigger] score(matrix@[i]@, num_v as int) >= score(
                    matrix@[r - 1]@,
                    num_v as int,
                )
            &&& forall|i: int|
                0 <= i < r - 1 ==> #[trigger] score(matrix@[i]@, num_v as int) > score(
                    matrix@[r - 1]@,
                    num_v as int,
                )
        }),
        (forall|i: int|
            0 <= i < num_v ==> #[trigger] score(matrix@[i]@, num_v as int) >= i32::MAX) ==> r == 1,
{
    let mut lowest_sum: i64 = i32::MAX as i64;
    let mut c_station: usize = 0;
    let mut i: usize = 0;
    while i < num_v
        invariant
            i <= num_v,
            num_v <= 0xFFFF_FFFF,
            matrix@.len() >= num_v,
            forall|t: int| 0 <= t < num_v ==> (#[trigger] matrix@[t])@.len() >= num_v,
            forall|t: int|
                0 <= t < i ==> #[trigger] score(matrix@[t]@, num_v as int) >= lowest_sum as int,
            lowest_sum as int <= i32::MAX as int,
            (lowest_sum as int == i32::MAX as int && c_station == 0) || ({
                &&& c_station < i
                &&& lowest_sum as int == score(matrix@[c_station as int]@, num_v as int)
                &&& (lowest_sum as int) < i32::MAX as int
                &&& forall|t: int|
                    0 <= t < c_station ==> #[trigger] score(matrix@[t]@, num_v as int)
                        > lowest_sum as int
            }),
        decreases num_v - i,
    {
        let s = pontuacao(&matrix[i], num_v);
        if s < lowest_sum {
            lowest_sum = s;
            c_station = i;
        }
        i += 1;
    }
    c_station + 1
}

/// Returns the central station's distance row (its first `num_v` entries),
/// the 1-indexed station farthest from it, and that farthest distance. When
/// every distance is `i32::MIN` the farthest-station index is 0, as nothing
/// exceeds the initial farthest distance.
pub fn station_vector(matrix: &[Vec<i32>], station: usize, num_v: usize) -> (r: (
    Vec<i32>,
    usize,
    i32,
))
    requires
        1 <= station,
        station - 1 < matrix@.len(),
        1 <= num_v,
        num_v <= matrix@[station - 1]@.len(),
    ensures
        r.0@.len() == num_v,
        forall|i: int| 0 <= i < num_v ==> #[trigger] r.0@[i] == matrix@[station - 1]@[i],
        (exists|i: int|
            0 <= i < num_v && #[trigger] matrix@[station - 1]@[i] > i32::MIN) ==> ({
            &&& 1 <= r.1 <= num_v
            &&& r.2 == matrix@[station - 1]@[r.1 - 1]
            &&& forall|i: int| 0 <= i < num_v ==> #[trigger] matrix@[station - 1]@[i] <= r.2
            &&& forall|i: int| 0 <= i < r.1 - 1 ==> #[trigger] matrix@[station - 1]@[i] < r.2
        }),
        (forall|i: int|
            0 <= i < num_v ==> #[trigger] matrix@[station - 1]@[i] == i32::MIN) ==> r.1 == 0 && r.2
            == i32::MIN,
{
    let mut ev: Vec<i32> = Vec::new();
    let mut farthest_station: usize = 0;
    let mut farthest_distance = i32::MIN;
    let mut i: usize = 0;
    while i < num_v
        invariant
            i <= num_v,
            station >= 1,
            station - 1 < matrix@.len(),
            num_v <= matrix@[station - 1]@.len(),
            ev@.len() == i,
            forall|t: int| 0 <= t < i ==> #[trigger] ev@[t] == matrix@[station - 1]@[t],
            forall|t: int| 0 <= t < i ==> #[trigger] matrix@[station - 1]@[t] <= farthest_distance,
            (farthest_distance == i32::MIN && farthest_station == 0) || ({
                &&& 1 <= farthest_station <= i
                &&& farthest_distance == matrix@[station - 1]@[farthest_station - 1]
                &&& farthest_distance > i32::MIN
                &&& forall|t: int|
                    0 <= t < farthest_station - 1 ==> #[trigger] matrix@[station - 1]@[t]
                        < farthest_distance
            }),
        decreases num_v - i,
    {
        let distancia_atual = matrix[station - 1][i];
        ev.push(distancia_atual);
        if distancia_atual > farthest_distance {
            farthest_distance = distancia_atual;
            farthest_station = i + 1;
        }
        i += 1;
    }
    (ev, farthest_station, farthest_distance)
}

} // verus!
