//! The rows of the frequency grid that the lowpass design constrains: the
//! pass band, the stop band, and the transition rows between them on which
//! only non-negativity of the spectrum is required.

use vstd::prelude::*;

verus! {

/// `rows` lists, in increasing order, exactly the indices `i` with
/// `flags[i]`.
pub open spec fn lists_flagged(rows: Seq<usize>, flags: Seq<bool>) -> bool {
    &&& forall|k: int| 0 <= k < rows.len() ==> rows[k] < flags.len() && flags[rows[k] as int]
    &&& forall|k1: int, k2: int| 0 <= k1 < k2 < rows.len() ==> rows[k1] < rows[k2]
    &&& forall|i: int| 0 <= i < flags.len() && flags[i] ==> rows.contains(i as usize)
}

/// The grid rows of the pass band and the stop band, and the run of
/// transition rows after the last pass-band row and before the first
/// stop-band row.
pub struct BandRows {
    pub pass: Vec<usize>,
    pub stop: Vec<usize>,
    pub transition_start: usize,
    pub transition_len: usize,
}

/// `b` holds, in increasing order, the rows flagged in `in_pass` and those
/// flagged in `in_stop`, at least one of each; its transition rows run from
/// just after the last pass-band row up to, not including, the first
/// stop-band row (none when the first stop-band row does not come after the
/// last pass-band row).
pub open spec fn band_layout(b: BandRows, in_pass: Seq<bool>, in_stop: Seq<bool>) -> bool {
    &&& lists_flagged(b.pass@, in_pass)
    &&& lists_flagged(b.stop@, in_stop)
    &&& b.pass@.len() > 0
    &&& b.stop@.len() > 0
    &&& b.transition_start == b.pass@.last() + 1
    &&& b.transition_len == if b.stop@[0] > b.transition_start {
        b.stop@[0] - b.transition_start
    } else {
        0
    }
}

/// A transition row is neither a pass-band row nor a stop-band row.
pub proof fn lemma_transition_rows_apart(
    b: BandRows,
    in_pass: Seq<bool>,
    in_stop: Seq<bool>,
    row: usize,
)
    requires
        band_layout(b, in_pass, in_stop),
        b.transition_start <= row < b.transition_start + b.transition_len,
    ensures
        !b.pass@.contains(row),
        !b.stop@.contains(row),
{
    if b.pass@.contains(row) {
        let k: int = choose|k: int| 0 <= k < b.pass@.len() && b.pass@[k] == row;
        if k < b.pass@.len() - 1 {
            assert(b.pass@[k] < b.pass@[b.pass@.len() - 1]);
        }
    }
    if b.stop@.contains(row) {
        let k: int = choose|k: int| 0 <= k < b.stop@.len() && b.stop@[k] == row;
        if k > 0 {
            assert(b.stop@[0] < b.stop@[k]);
        }
    }
}

/// Row `r` lies after every row flagged for the pass band and before every
/// row flagged for the stop band.
pub open spec fn between_bands(in_pass: Seq<bool>, in_stop: Seq<bool>, r: int) -> bool {
    &&& forall|i: int| 0 <= i < in_pass.len() && #[trigger] in_pass[i] ==> i < r
    &&& forall|j: int| 0 <= j < in_stop.len() && #[trigger] in_stop[j] ==> r < j
}

/// The transition rows are exactly the rows that lie after the whole pass
/// band and before the whole stop band: none of those rows is left out of
/// the run, and the run holds no other row. (The flags are those of a grid
/// held in memory, so their count is a `usize`.)
pub proof fn lemma_transition_rows_are_the_gap(
    b: BandRows,
    in_pass: Seq<bool>,
    in_stop: Seq<bool>,
)
    requires
        band_layout(b, in_pass, in_stop),
        in_pass.len() <= usize::MAX,
        in_stop.len() <= usize::MAX,
    ensures
        forall|r: int|
            #![trigger between_bands(in_pass, in_stop, r)]
            (b.transition_start <= r < b.transition_start + b.transition_len) <==> between_bands(
                in_pass,
                in_stop,
                r,
            ),
{
    let pass = b.pass@;
    let stop = b.stop@;
    let p_last: int = pass[pass.len() - 1] as int;
    let s_first: int = stop[0] as int;
    assert(in_pass[p_last]);
    assert(in_stop[s_first]);
    assert forall|r: int|
        #![trigger between_bands(in_pass, in_stop, r)]
        (b.transition_start <= r < b.transition_start + b.transition_len) <==> between_bands(
            in_pass,
            in_stop,
            r,
        ) by {
        if b.transition_start <= r < b.transition_start + b.transition_len {
            assert forall|i: int| 0 <= i < in_pass.len() && #[trigger] in_pass[i] implies i < r by {
                assert(pass.contains(i as usize));
                let k: int = choose|k: int| 0 <= k < pass.len() && pass[k] == i as usize;
                if k < pass.len() - 1 {
                    assert(pass[k] < pass[pass.len() - 1]);
                }
            }
            assert forall|j: int| 0 <= j < in_stop.len() && #[trigger] in_stop[j] implies r < j by {
                assert(stop.contains(j as usize));
                let k: int = choose|k: int| 0 <= k < stop.len() && stop[k] == j as usize;
                if k > 0 {
                    assert(stop[0] < stop[k]);
                }
            }
        }
        if between_bands(in_pass, in_stop, r) {
            assert(p_last < r);
            assert(r < s_first);
        }
    }
}

/// The indices `i` with `flags[i]`, in increasing order.
pub fn flagged_rows(flags: &[bool]) -> (rows: Vec<usize>)
    ensures
        lists_flagged(rows@, flags@),
{
    let mut rows: Vec<usize> = Vec::new();
    let mut i: usize = 0;
    while i < flags.len()
        invariant
            i <= flags@.len(),
            forall|k: int| 0 <= k < rows@.len() ==> rows@[k] < i && flags@[rows@[k] as int],
            forall|k1: int, k2: int| 0 <= k1 < k2 < rows@.len() ==> rows@[k1] < rows@[k2],
            forall|j: int| 0 <= j < i && flags@[j] ==> rows@.contains(j as usize),
        decreases flags@.len() - i,
    {
        let ghost before = rows@;
        if flags[i] {
            rows.push(i);
            assert(rows@[rows@.len() - 1] == i);
        }
        assert forall|j: int| 0 <= j < i + 1 && flags@[j] implies rows@.contains(j as usize) by {
            if j < i {
                let k: int = choose|k: int| 0 <= k < before.len() && before[k] == j as usize;
                assert(rows@[k] == j as usize);
            } else {
                assert(rows@[rows@.len() - 1] == j as usize);
            }
        }
        i = i + 1;
    }
    rows
}

/// The pass-band, stop-band and transition rows of a grid whose rows are
/// flagged in `in_pass` when they lie in the pass band and in `in_stop` when
/// they lie in the stop band.
pub fn band_rows(in_pass: &[bool], in_stop: &[bool]) -> (b: BandRows)
    requires
        exists|i: int| 0 <= i < in_pass@.len() && #[trigger] in_pass@[i],
        exists|j: int| 0 <= j < in_stop@.len() && #[trigger] in_stop@[j],
    ensures
        band_layout(b, in_pass@, in_stop@),
{
    let pass = flagged_rows(in_pass);
    let stop = flagged_rows(in_stop);
    proof {
        let i: int = choose|i: int| 0 <= i < in_pass@.len() && #[trigger] in_pass@[i];
        assert(pass@.contains(i as usize));
        let j: int = choose|j: int| 0 <= j < in_stop@.len() && #[trigger] in_stop@[j];
        assert(stop@.contains(j as usize));
    }
    let grid_len: usize = in_pass.len();
    let p_last: usize = pass[pass.len() - 1];
    assert(p_last < grid_len);
    let s_start: usize = stop[0];
    let transition_start: usize = p_last + 1;
    let transition_len: usize = s_start.saturating_sub(transition_start);
    BandRows { pass, stop, transition_start, transition_len }
}

} // verus!
