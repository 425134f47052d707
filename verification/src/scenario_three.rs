//! Helpers for the warehouse-grid scenario: mapping grid coordinates to
//! vertex ids and turning a reconstructed path into compass directions.

use vstd::prelude::*;

verus! {

/// Vertex id of the grid cell at `coords = (x, y)` in a grid with `coluumns`
/// columns: `x + y * coluumns`.
pub fn achar_node(coords: &(usize, usize), coluumns: usize) -> (v: usize)
    requires
        coords.0 + coords.1 * coluumns <= usize::MAX,
    ensures
        v == coords.0 + coords.1 * coluumns,
{
    let x = coords.0;
    let y = coords.1;
    let v = x + (y * coluumns);
    v
}

/// Compass direction for one step between consecutive vertex ids of the
/// 15-column grid: +1 east, -1 west, +15 south, -15 north, anything else `?`.
pub open spec fn spec_direcao(diff: int) -> Seq<char> {
    if diff == 1 {
        "E"@
    } else if diff == -1 {
        "W"@
    } else if diff == 15 {
        "S"@
    } else if diff == -15 {
        "N"@
    } else {
        "?"@
    }
}

/// Turns a path (vertex ids of the 15-column grid) into the directions walked
/// between consecutive vertices. Vertex ids above `isize::MAX` are excluded:
/// their differences would not be representable.
pub fn caminho_coord(caminho: &Vec<usize>) -> (r: Vec<&'static str>)
    requires
        forall|k: int| 0 <= k < caminho@.len() ==> (#[trigger] caminho@[k]) <= (isize::MAX as usize),
    ensures
        caminho@.len() == 0 ==> r@.len() == 0,
        caminho@.len() >= 1 ==> r@.len() == caminho@.len() - 1,
        forall|k: int|
            0 <= k < r@.len() ==> (#[trigger] r@[k])@ == spec_direcao(
                caminho@[k + 1] - caminho@[k],
            ),
{
    let mut coords: Vec<&'static str> = Vec::new();
    if caminho.len() == 0 {
        return coords;
    }
    let mut k: usize = 0;
    while k < caminho.len() - 1
        invariant
            caminho@.len() >= 1,
            k <= caminho@.len() - 1,
            coords@.len() == k,
            forall|t: int| 0 <= t < caminho@.len() ==> (#[trigger] caminho@[t]) <= (
            isize::MAX as usize),
            forall|t: int|
                0 <= t < k ==> (#[trigger] coords@[t])@ == spec_direcao(
                    caminho@[t + 1] - caminho@[t],
                ),
        decreases caminho@.len() - k,
    {
        let i = caminho[k];
        let j = caminho[k + 1];
        let res = j as isize - i as isize;
        match res {
            1 => coords.push("E"),
            -1 => coords.push("W"),
            15 => coords.push("S"),
            -15 => coords.push("N"),
            _ => coords.push("?"),
        };
        k += 1;
    }
    coords
}

} // verus!
