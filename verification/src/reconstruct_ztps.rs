//! Zero-terminated paths: all the paths of a given length that start and end
//! in state zero, up to a given distance, put together from irreducible
//! error events and steps that stay in state zero.

use vstd::prelude::*;
use crate::bitpath::{
    bv_clone, bv_extend_from, bv_extend_zeros, bv_new, bv_resize, max_bits, resized, zeros, BitPath,
};
use crate::find_irreducible_error_event::ErrorEvents;
use crate::poly_wrapper::{coeff, degree_of, PolyWrapper};

verus! {

/// The zero-terminated paths by distance: `zero_terminated_paths[d]` holds
/// the paths whose output has the Hamming weight `d`, and `aggregate` is
/// the number of all of them.
pub struct ZTPs {
    pub zero_terminated_paths: Vec<Vec<BitPath>>,
    pub aggregate: usize,
}

/// Why no zero-terminated path was put together.
#[derive(Debug, Clone, Copy, PartialEq, Eq, Structural)]
pub enum ReconstructError {
    /// The greatest distance asked for lies beyond the degree of the weight
    /// enumerator: the search distance or the trellis length is too small
    /// for the encoder.
    InsufficientParameters,
}

/// The pieces that paths are put together from, by weight: the bits of each
/// piece and the number of steps that it takes.
pub struct Pieces {
    pub bits: Seq<Seq<Seq<bool>>>,
    pub steps: Seq<Seq<int>>,
}

/// The number of pieces of the weight `w`.
pub open spec fn piece_count(pieces: Pieces, w: int) -> int {
    if 0 <= w < pieces.bits.len() {
        pieces.bits[w].len() as int
    } else {
        0
    }
}

/// Every path of `paths` with the bits `piece` behind it.
pub open spec fn all_followed_by(paths: Seq<Seq<bool>>, piece: Seq<bool>) -> Seq<Seq<bool>> {
    Seq::new(paths.len(), |i: int| paths[i] + piece)
}

/// The paths of the weight `d` and of `l` steps that end with piece `j` of
/// the weight `w`: the piece alone where it has that weight and that many
/// steps, and else every path of the remaining weight and the remaining
/// steps with the piece behind it.
pub open spec fn ending_with(pieces: Pieces, d: int, l: int, w: int, j: int) -> Seq<Seq<bool>>
    decreases l, 0nat, 0nat,
{
    if l <= 0 || !(0 <= w <= d) || !(0 <= j < piece_count(pieces, w)) {
        Seq::empty()
    } else {
        let steps = pieces.steps[w][j];
        if w == d && steps == l {
            seq![pieces.bits[w][j]]
        } else if 0 < steps < l {
            all_followed_by(ztp_bucket(pieces, d - w, l - steps), pieces.bits[w][j])
        } else {
            Seq::empty()
        }
    }
}

/// The paths of the weight `d` and of `l` steps that end with one of the
/// first `count` pieces of the weight `w`, in the order of the pieces.
pub open spec fn ending_with_first(pieces: Pieces, d: int, l: int, w: int, count: int) -> Seq<
    Seq<bool>,
>
    decreases l, 1nat, (if count <= 0 { 0nat } else { count as nat }),
{
    if l <= 0 || count <= 0 {
        Seq::empty()
    } else {
        ending_with_first(pieces, d, l, w, count - 1) + ending_with(pieces, d, l, w, count - 1)
    }
}

/// The paths of the weight `d` and of `l` steps that end with a piece of a
/// weight above `w`, the greatest weight first.
pub open spec fn ending_above(pieces: Pieces, d: int, l: int, w: int) -> Seq<Seq<bool>>
    decreases l, 2nat, (if w >= d { 0nat } else { (d - w) as nat }),
{
    if l <= 0 || w >= d {
        Seq::empty()
    } else {
        ending_above(pieces, d, l, w + 1) + ending_with_first(
            pieces,
            d,
            l,
            w + 1,
            piece_count(pieces, w + 1),
        )
    }
}

/// All the paths of the weight `d` and of `l` steps that can be put together
/// from the pieces, ordered by their last piece.
pub open spec fn ztp_bucket(pieces: Pieces, d: int, l: int) -> Seq<Seq<bool>>
    decreases l, 3nat, 0nat,
{
    if l <= 0 {
        Seq::empty()
    } else {
        ending_above(pieces, d, l, -1)
    }
}

/// The pieces that the error events give: of the weight zero the one step
/// of `k` zero bits that stays in state zero, and of the weight `w` above
/// zero the events at the index `w - 1`, each cut down to its own length,
/// which is the greatest multiple of `k` within the length it is listed
/// with.
pub open spec fn pieces_of(events: Seq<Seq<Seq<bool>>>, lengths: Seq<Seq<u32>>, k: int) -> Pieces {
    Pieces {
        bits: Seq::new(
            events.len() + 1,
            |w: int|
                if w == 0 {
                    seq![zeros(k)]
                } else {
                    Seq::new(
                        events[w - 1].len(),
                        |j: int| resized(events[w - 1][j], (lengths[w - 1][j] as int / k) * k, true),
                    )
                },
        ),
        steps: Seq::new(
            events.len() + 1,
            |w: int|
                if w == 0 {
                    seq![1int]
                } else {
                    Seq::new(events[w - 1].len(), |j: int| lengths[w - 1][j] as int / k)
                },
        ),
    }
}

/// The events list a length for every event, and no length beyond what a
/// path can hold on any machine.
pub open spec fn events_consistent(events: &ErrorEvents) -> bool {
    &&& events.error_events@.len() == events.error_event_lengths@.len()
    &&& events.error_events@.len() < usize::MAX
    &&& forall|w: int|
        0 <= w < events.error_events@.len() ==> (#[trigger] events.error_events@[w])@.len()
            == events.error_event_lengths@[w]@.len()
    &&& forall|w: int, j: int|
        0 <= w < events.error_event_lengths@.len() && 0 <= j
            < events.error_event_lengths@[w]@.len()
            ==> #[trigger] events.error_event_lengths@[w]@[j] <= 0x1fff_ffff
}

/// The exec form of the pieces: the bits and the steps of each.
pub open spec fn pieces_view(bits: &Vec<Vec<BitPath>>, steps: &Vec<Vec<usize>>) -> Pieces {
    Pieces {
        bits: bits.deep_view(),
        steps: Seq::new(steps@.len(), |w: int| Seq::new(steps@[w]@.len(), |j: int| steps@[w]@[j] as int)),
    }
}

/// Every piece has its number of steps, and `k` bits for each step.
pub open spec fn pieces_wf(bits: &Vec<Vec<BitPath>>, steps: &Vec<Vec<usize>>, k: int) -> bool {
    &&& bits@.len() == steps@.len()
    &&& forall|w: int| 0 <= w < bits@.len() ==> (#[trigger] bits@[w])@.len() == steps@[w]@.len()
    &&& forall|w: int, j: int|
        0 <= w < bits@.len() && 0 <= j < bits@[w]@.len() ==> (#[trigger] bits@[w]@[j])@.len()
            == steps@[w]@[j] * k
}

/// Makes the pieces out of the error events.
fn prepare_pieces(events: &ErrorEvents, k: u16) -> (pieces: (Vec<Vec<BitPath>>, Vec<Vec<usize>>))
    requires
        events_consistent(events),
        1 <= k <= 15,
    ensures
        pieces_view(&pieces.0, &pieces.1) == pieces_of(
            events.error_events.deep_view(),
            events.error_event_lengths.deep_view(),
            k as int,
        ),
        pieces_wf(&pieces.0, &pieces.1, k as int),
{
    let ghost ev = events.error_events.deep_view();
    let ghost lens = events.error_event_lengths.deep_view();
    let ghost target = pieces_of(ev, lens, k as int);
    assert(max_bits() >= 0x1fff_ffff);
    let mut bits: Vec<Vec<BitPath>> = Vec::new();
    let mut steps: Vec<Vec<usize>> = Vec::new();
    let mut trivial = bv_new();
    bv_extend_zeros(&mut trivial, k as usize);
    let mut first_bits: Vec<BitPath> = Vec::new();
    first_bits.push(trivial);
    let mut first_steps: Vec<usize> = Vec::new();
    first_steps.push(1);
    bits.push(first_bits);
    steps.push(first_steps);
    proof {
        assert(bits@[0]@[0]@ =~= zeros(k as int));
        assert(bits@[0]@[0]@.len() == steps@[0]@[0] * k);
        assert(bits.deep_view()[0] =~= seq![zeros(k as int)]);
        assert(ev.len() == events.error_events@.len());
        assert(lens.len() == events.error_event_lengths@.len());
    }
    let mut w: usize = 0;
    while w < events.error_events.len()
        invariant
            events_consistent(events),
            1 <= k <= 15,
            max_bits() >= 0x1fff_ffff,
            ev == events.error_events.deep_view(),
            lens == events.error_event_lengths.deep_view(),
            target == pieces_of(ev, lens, k as int),
            w <= events.error_events@.len(),
            bits@.len() == w + 1,
            steps@.len() == w + 1,
            forall|x: int| 0 <= x <= w ==> #[trigger] bits.deep_view()[x] == target.bits[x],
            forall|x: int|
                0 <= x <= w ==> (#[trigger] steps@[x])@.len() == target.steps[x].len(),
            forall|x: int| 0 <= x <= w ==> (#[trigger] bits@[x])@.len() == steps@[x]@.len(),
            forall|x: int, j: int|
                0 <= x <= w && 0 <= j < bits@[x]@.len() ==> (#[trigger] bits@[x]@[j])@.len()
                    == steps@[x]@[j] * k,
            forall|x: int, j: int|
                0 <= x <= w && 0 <= j < steps@[x]@.len() ==> #[trigger] steps@[x]@[j]
                    == target.steps[x][j],
        decreases events.error_events@.len() - w,
    {
        let mut row_bits: Vec<BitPath> = Vec::new();
        let mut row_steps: Vec<usize> = Vec::new();
        let count = events.error_events[w].len();
        proof {
            assert(ev[w as int].len() == events.error_events@[w as int]@.len());
            assert(lens[w as int].len() == events.error_event_lengths@[w as int]@.len());
        }
        let mut j: usize = 0;
        while j < count
            invariant
                events_consistent(events),
                1 <= k <= 15,
                max_bits() >= 0x1fff_ffff,
                ev == events.error_events.deep_view(),
                lens == events.error_event_lengths.deep_view(),
                w < events.error_events@.len(),
                count == events.error_events@[w as int]@.len(),
                j <= count,
                row_bits@.len() == j,
                row_steps@.len() == j,
                forall|x: int|
                    0 <= x < j ==> (#[trigger] row_bits@[x])@ == resized(
                        ev[w as int][x],
                        (lens[w as int][x] as int / (k as int)) * k,
                        true,
                    ),
                forall|x: int|
                    0 <= x < j ==> #[trigger] row_steps@[x] == lens[w as int][x] as int / (k as int),
                forall|x: int| 0 <= x < j ==> (#[trigger] row_bits@[x])@.len() == row_steps@[x] * k,
            decreases count - j,
        {
            let length: usize = events.error_event_lengths[w][j] as usize;
            let event_steps: usize = length / (k as usize);
            proof {
                assert(lens[w as int][j as int] == events.error_event_lengths@[w as int]@[j as int]);
                assert(ev[w as int][j as int] == events.error_events@[w as int]@[j as int]@);
                assert(event_steps * k <= length) by (nonlinear_arith)
                    requires
                        event_steps == length / (k as usize),
                        k >= 1,
                ;
            }
            let mut piece = bv_clone(&events.error_events[w][j]);
            bv_resize(&mut piece, event_steps * (k as usize), true);
            row_bits.push(piece);
            row_steps.push(event_steps);
            j += 1;
        }
        let ghost before = bits.deep_view();
        let ghost before_rows = bits@;
        bits.push(row_bits);
        steps.push(row_steps);
        proof {
            let x = w + 1;
            assert(bits.deep_view()[x] =~= target.bits[x]) by {
                assert forall|i: int| 0 <= i < count implies bits.deep_view()[x][i]
                    == target.bits[x][i] by {
                    assert(bits.deep_view()[x][i] == bits@[x]@[i]@);
                }
            }
            assert forall|y: int| 0 <= y <= w + 1 implies #[trigger] bits.deep_view()[y]
                == target.bits[y] by {
                if y <= w {
                    assert(bits@[y] == before_rows[y]);
                    assert(bits.deep_view()[y] == bits@[y].deep_view());
                    assert(before[y] == before_rows[y].deep_view());
                    assert(before[y] == target.bits[y]);
                }
            }
        }
        w += 1;
    }
    proof {
        let made = pieces_view(&bits, &steps);
        assert(made.bits =~= target.bits);
        assert(made.steps =~= target.steps) by {
            assert forall|x: int| 0 <= x < made.steps.len() implies made.steps[x]
                =~= target.steps[x] by {}
        }
    }
    (bits, steps)
}

/// A copy of every path of `source` with the bits of `piece` behind it.
fn followed_by(source: &Vec<BitPath>, piece: &BitPath) -> (paths: Vec<BitPath>)
    requires
        forall|i: int|
            0 <= i < source@.len() ==> (#[trigger] source@[i])@.len() + piece@.len() <= max_bits(),
    ensures
        paths.deep_view() == all_followed_by(source.deep_view(), piece@),
{
    let mut paths: Vec<BitPath> = Vec::new();
    let mut i: usize = 0;
    while i < source.len()
        invariant
            i <= source@.len(),
            forall|x: int|
                0 <= x < source@.len() ==> (#[trigger] source@[x])@.len() + piece@.len()
                    <= max_bits(),
            paths@.len() == i,
            forall|x: int| 0 <= x < i ==> (#[trigger] paths@[x])@ == source@[x]@ + piece@,
        decreases source@.len() - i,
    {
        let mut path = bv_clone(&source[i]);
        bv_extend_from(&mut path, piece);
        paths.push(path);
        i += 1;
    }
    assert(paths.deep_view() =~= all_followed_by(source.deep_view(), piece@));
    paths
}

/// The buckets before `(dc, lc)`, in the order in which the table is filled,
/// hold what they are to hold, each path with `k` bits for each step.
pub open spec fn table_filled(
    tv: Seq<Seq<Seq<Seq<bool>>>>,
    pieces: Pieces,
    k: int,
    rows: int,
    cols: int,
    dc: int,
    lc: int,
) -> bool {
    &&& tv.len() == rows
    &&& forall|d: int| 0 <= d < rows ==> (#[trigger] tv[d]).len() == cols
    &&& forall|d: int, l: int|
        0 <= d < rows && 0 <= l < cols && (d < dc || (d == dc && l < lc)) ==> #[trigger] tv[d][l]
            == ztp_bucket(pieces, d, l)
    &&& forall|d: int, l: int, i: int|
        0 <= d < rows && 0 <= l < cols && 0 <= i < tv[d][l].len() ==> (#[trigger] tv[d][l][i]).len()
            == l * k
}

/// All the paths of the weight `d` and of `l` steps, put together from the
/// pieces and from the shorter paths that the table already holds.
fn compute_bucket(
    temp: &Vec<Vec<Vec<BitPath>>>,
    bits: &Vec<Vec<BitPath>>,
    steps: &Vec<Vec<usize>>,
    k: u16,
    d: usize,
    l: usize,
    Ghost(rows): Ghost<int>,
    Ghost(cols): Ghost<int>,
) -> (bucket: Vec<BitPath>)
    requires
        1 <= k <= 15,
        pieces_wf(bits, steps, k as int),
        d < rows <= usize::MAX,
        1 <= l < cols,
        cols <= 0x10000,
        table_filled(temp.deep_view(), pieces_view(bits, steps), k as int, rows, cols, d as int, l as int),
    ensures
        bucket.deep_view() == ztp_bucket(pieces_view(bits, steps), d as int, l as int),
        forall|i: int| 0 <= i < bucket@.len() ==> (#[trigger] bucket@[i])@.len() == l * k,
{
    let ghost q = pieces_view(bits, steps);
    let ghost tv = temp.deep_view();
    assert(max_bits() >= 0x1fff_ffff);
    assert(l * k <= 0x10000 * 15) by (nonlinear_arith)
        requires
            l <= 0x10000,
            k <= 15,
    ;
    proof {
        assert(q.bits.len() == bits@.len());
        assert(tv.len() == temp@.len());
    }
    let mut bucket: Vec<BitPath> = Vec::new();
    let mut remaining: usize = d + 1;
    assert(bucket.deep_view() =~= ending_above(q, d as int, l as int, d as int));
    while remaining > 0
        invariant
            1 <= k <= 15,
            pieces_wf(bits, steps, k as int),
            q == pieces_view(bits, steps),
            tv == temp.deep_view(),
            d < rows,
            1 <= l < cols,
            l * k <= 0x10000 * 15,
            max_bits() >= 0x1fff_ffff,
            remaining <= d + 1,
            table_filled(tv, q, k as int, rows, cols, d as int, l as int),
            bucket.deep_view() == ending_above(q, d as int, l as int, remaining - 1),
            forall|i: int| 0 <= i < bucket@.len() ==> (#[trigger] bucket@[i])@.len() == l * k,
        decreases remaining,
    {
        remaining -= 1;
        let w: usize = remaining;
        let count: usize = if w < bits.len() { bits[w].len() } else { 0 };
        proof {
            assert(q.bits.len() == bits@.len());
            if w < bits@.len() {
                assert(q.bits[w as int].len() == bits@[w as int]@.len());
            }
            assert(count == piece_count(q, w as int));
            assert(bucket.deep_view() =~= ending_above(q, d as int, l as int, w as int)
                + ending_with_first(q, d as int, l as int, w as int, 0));
        }
        let mut j: usize = 0;
        while j < count
            invariant
                1 <= k <= 15,
                pieces_wf(bits, steps, k as int),
                q == pieces_view(bits, steps),
                tv == temp.deep_view(),
                d < rows,
                w <= d,
                1 <= l < cols,
                l * k <= 0x10000 * 15,
                max_bits() >= 0x1fff_ffff,
                j <= count,
                count == piece_count(q, w as int),
                count > 0 ==> w < bits@.len() && count == bits@[w as int]@.len(),
                table_filled(tv, q, k as int, rows, cols, d as int, l as int),
                bucket.deep_view() == ending_above(q, d as int, l as int, w as int)
                    + ending_with_first(q, d as int, l as int, w as int, j as int),
                forall|i: int| 0 <= i < bucket@.len() ==> (#[trigger] bucket@[i])@.len() == l * k,
            decreases count - j,
        {
            let piece_steps: usize = steps[w][j];
            let ghost before = bucket.deep_view();
            let ghost piece = bits@[w as int]@[j as int]@;
            proof {
                assert(q.bits[w as int][j as int] == piece);
                assert(q.steps[w as int][j as int] == piece_steps);
                assert(piece.len() == piece_steps * k);
            }
            if w == d && piece_steps == l {
                bucket.push(bv_clone(&bits[w][j]));
                proof {
                    assert(ending_with(q, d as int, l as int, w as int, j as int) == seq![piece]);
                    assert(bucket.deep_view() =~= before + seq![piece]);
                }
            } else if 0 < piece_steps && piece_steps < l {
                proof {
                    assert(tv.len() == temp@.len());
                    assert(tv[d - w].len() == temp@[d - w]@.len());
                    assert(tv[d - w][l - piece_steps] == temp@[d - w]@[l - piece_steps].deep_view());
                    assert((l - piece_steps) * k + piece_steps * k == l * k) by (nonlinear_arith);
                    assert forall|i: int|
                        0 <= i < temp@[d - w]@[l - piece_steps]@.len() implies (
                    #[trigger] temp@[d - w]@[l - piece_steps]@[i])@.len() + piece.len()
                        <= max_bits() by {
                        assert(tv[d - w][l - piece_steps][i] == temp@[d - w]@[l
                            - piece_steps]@[i]@);
                    }
                }
                let mut more = followed_by(&temp[d - w][l - piece_steps], &bits[w][j]);
                let ghost added = more.deep_view();
                let ghost added_paths = more@;
                bucket.append(&mut more);
                proof {
                    assert(added == all_followed_by(
                        ztp_bucket(q, d - w, l - piece_steps),
                        piece,
                    ));
                    assert(ending_with(q, d as int, l as int, w as int, j as int) == added);
                    assert(bucket.deep_view() =~= before + added) by {
                        assert forall|i: int| 0 <= i < bucket@.len() implies bucket.deep_view()[i]
                            == (before + added)[i] by {
                            if i >= before.len() {
                                assert(bucket@[i] == added_paths[i - before.len()]);
                                assert(added[i - before.len()] == added_paths[i - before.len()]@);
                            }
                        }
                    }
                    assert forall|i: int| 0 <= i < bucket@.len() implies (#[trigger] bucket@[i])@.len()
                        == l * k by {
                        if i >= before.len() {
                            let x = i - before.len();
                            assert(bucket@[i] == added_paths[x]);
                            assert(added[x] == added_paths[x]@);
                            assert(added[x] == tv[d - w][l - piece_steps][x] + piece);
                        }
                    }
                }
            } else {
                proof {
                    assert(ending_with(q, d as int, l as int, w as int, j as int)
                        =~= Seq::<Seq<bool>>::empty());
                    assert(bucket.deep_view() =~= before + Seq::<Seq<bool>>::empty());
                }
            }
            proof {
                let e = ending_with(q, d as int, l as int, w as int, j as int);
                assert(ending_above(q, d as int, l as int, w as int) + ending_with_first(
                    q,
                    d as int,
                    l as int,
                    w as int,
                    j as int,
                ) + e =~= ending_above(q, d as int, l as int, w as int) + (ending_with_first(
                    q,
                    d as int,
                    l as int,
                    w as int,
                    j as int,
                ) + e));
            }
            j += 1;
        }
    }
    bucket
}

/// Copies of the given paths.
fn clone_paths(paths: &Vec<BitPath>) -> (copies: Vec<BitPath>)
    ensures
        copies.deep_view() == paths.deep_view(),
{
    let mut copies: Vec<BitPath> = Vec::new();
    let mut i: usize = 0;
    while i < paths.len()
        invariant
            i <= paths@.len(),
            copies@.len() == i,
            forall|x: int| 0 <= x < i ==> (#[trigger] copies@[x])@ == paths@[x]@,
        decreases paths@.len() - i,
    {
        copies.push(bv_clone(&paths[i]));
        i += 1;
    }
    assert(copies.deep_view() =~= paths.deep_view());
    copies
}

/// A table of `rows` by `cols` empty lists of paths.
fn empty_table(rows: usize, cols: usize) -> (table: Vec<Vec<Vec<BitPath>>>)
    ensures
        table@.len() == rows,
        forall|d: int| 0 <= d < rows ==> (#[trigger] table@[d])@.len() == cols,
        forall|d: int, l: int|
            0 <= d < rows && 0 <= l < cols ==> (#[trigger] table@[d]@[l])@.len() == 0,
{
    let mut table: Vec<Vec<Vec<BitPath>>> = Vec::new();
    let mut d: usize = 0;
    while d < rows
        invariant
            d <= rows,
            table@.len() == d,
            forall|x: int| 0 <= x < d ==> (#[trigger] table@[x])@.len() == cols,
            forall|x: int, l: int|
                0 <= x < d && 0 <= l < cols ==> (#[trigger] table@[x]@[l])@.len() == 0,
        decreases rows - d,
    {
        let mut row: Vec<Vec<BitPath>> = Vec::new();
        let mut l: usize = 0;
        while l < cols
            invariant
                l <= cols,
                row@.len() == l,
                forall|x: int| 0 <= x < l ==> (#[trigger] row@[x])@.len() == 0,
            decreases cols - l,
        {
            row.push(Vec::new());
            l += 1;
        }
        table.push(row);
        d += 1;
    }
    table
}

/// The number of paths of `l` steps with a weight below `upto`.
pub open spec fn total_paths(pieces: Pieces, l: int, upto: int) -> int
    decreases upto,
{
    if upto <= 0 {
        0
    } else {
        total_paths(pieces, l, upto - 1) + ztp_bucket(pieces, upto - 1, l).len()
    }
}

/// What [`reconstruct_ztps`] returns on the distances up to `max`, for paths
/// of `trellis_len` steps put together from `pieces`: for each distance the
/// paths of that weight, and the number of them all, as far as a `usize`
/// holds it.
pub open spec fn is_reconstruction(ztps: &ZTPs, pieces: Pieces, max: int, trellis_len: int) -> bool {
    &&& ztps.zero_terminated_paths@.len() == max + 1
    &&& forall|d: int|
        0 <= d <= max ==> #[trigger] ztps.zero_terminated_paths.deep_view()[d] == ztp_bucket(
            pieces,
            d,
            trellis_len,
        )
    &&& ztps.aggregate == if total_paths(pieces, trellis_len, max + 1) <= usize::MAX {
        total_paths(pieces, trellis_len, max + 1)
    } else {
        usize::MAX as int
    }
}

/// Puts together, from the irreducible error events and from steps that stay
/// in state zero, every path of `trellis_len` steps that starts and ends in
/// state zero with an output weight of at most `max_search_distance`. The
/// input symbols have one bit for each numerator. Nothing is put together
/// where `max_search_distance` lies beyond the degree of the weight
/// enumerator.
pub fn reconstruct_ztps(
    _v: u16,
    numerators: &[u16],
    _octal_denominator: u16,
    max_search_distance: usize,
    trellis_len: u16,
    weight_spectrum: &PolyWrapper,
    err_events: &ErrorEvents,
) -> (result: Result<ZTPs, ReconstructError>)
    requires
        1 <= numerators@.len() <= 15,
        events_consistent(err_events),
    ensures
        match result {
            Ok(ztps) => {
                &&& degree_of(weight_spectrum@) matches Some(degree)
                &&& max_search_distance <= degree
                &&& is_reconstruction(
                    &ztps,
                    pieces_of(
                        err_events.error_events.deep_view(),
                        err_events.error_event_lengths.deep_view(),
                        numerators@.len() as int,
                    ),
                    max_search_distance as int,
                    trellis_len as int,
                )
                &&& forall|d: int, i: int|
                    0 <= d <= max_search_distance && 0 <= i
                        < ztps.zero_terminated_paths@[d]@.len() ==> (
                    #[trigger] ztps.zero_terminated_paths@[d]@[i])@.len() == trellis_len
                        * numerators@.len()
            },
            Err(e) => {
                &&& e == ReconstructError::InsufficientParameters
                &&& match degree_of(weight_spectrum@) {
                    Some(degree) => max_search_distance > degree,
                    None => true,
                }
            },
        },
{
    let k: u16 = numerators.len() as u16;
    let coefficients: usize = weight_spectrum.coeffs.len();
    assert(weight_spectrum@.len() == coefficients);
    match weight_spectrum.degree() {
        Some(degree) => {
            if max_search_distance > degree {
                return Err(ReconstructError::InsufficientParameters);
            }
        },
        None => {
            return Err(ReconstructError::InsufficientParameters);
        },
    }
    let pieces = prepare_pieces(err_events, k);
    let bits = pieces.0;
    let steps = pieces.1;
    let ghost q = pieces_view(&bits, &steps);
    let rows: usize = max_search_distance + 1;
    let cols: usize = trellis_len as usize + 1;
    let mut temp_ztps = empty_table(rows, cols);
    proof {
        let tv = temp_ztps.deep_view();
        assert(tv.len() == temp_ztps@.len());
        assert forall|d: int| 0 <= d < rows implies (#[trigger] tv[d]).len() == cols by {
            assert(tv[d].len() == temp_ztps@[d]@.len());
        }
        assert forall|d: int, l: int| 0 <= d < rows && 0 <= l < cols implies (#[trigger] tv[d][l]).len()
            == 0 by {
            assert(tv[d][l].len() == temp_ztps@[d]@[l]@.len());
        }
    }
    let mut distance: usize = 0;
    while distance < rows
        invariant
            1 <= k <= 15,
            pieces_wf(&bits, &steps, k as int),
            q == pieces_view(&bits, &steps),
            rows == max_search_distance + 1,
            cols == trellis_len + 1,
            distance <= rows,
            table_filled(temp_ztps.deep_view(), q, k as int, rows as int, cols as int, distance as int, 0),
            forall|d: int, l: int|
                distance <= d < rows && 0 <= l < cols ==> (#[trigger] temp_ztps.deep_view()[d][l]).len()
                    == 0,
        decreases rows - distance,
    {
        let mut test_length: usize = 1;
        proof {
            let tv = temp_ztps.deep_view();
            assert(tv[distance as int][0] =~= ztp_bucket(q, distance as int, 0));
        }
        while test_length < cols
            invariant
                1 <= k <= 15,
                pieces_wf(&bits, &steps, k as int),
                q == pieces_view(&bits, &steps),
                rows == max_search_distance + 1,
                cols == trellis_len + 1,
                distance < rows,
                1 <= test_length <= cols,
                table_filled(
                    temp_ztps.deep_view(),
                    q,
                    k as int,
                    rows as int,
                    cols as int,
                    distance as int,
                    test_length as int,
                ),
                forall|d: int, l: int|
                    0 <= d < rows && 0 <= l < cols && (d > distance || (d == distance && l
                        >= test_length)) ==> (#[trigger] temp_ztps.deep_view()[d][l]).len() == 0,
            decreases cols - test_length,
        {
            let bucket = compute_bucket(
                &temp_ztps,
                &bits,
                &steps,
                k,
                distance,
                test_length,
                Ghost(rows as int),
                Ghost(cols as int),
            );
            let ghost before = temp_ztps.deep_view();
            let ghost filled = bucket.deep_view();
            let ghost before_rows = temp_ztps@;
            proof {
                assert(before.len() == temp_ztps@.len());
                assert(before[distance as int].len() == temp_ztps@[distance as int]@.len());
            }
            temp_ztps[distance][test_length] = bucket;
            proof {
                let tv = temp_ztps.deep_view();
                assert(tv.len() == temp_ztps@.len());
                assert forall|d: int| 0 <= d < rows implies (#[trigger] tv[d]).len() == cols by {
                    assert(tv[d].len() == temp_ztps@[d]@.len());
                    assert(before[d].len() == before_rows[d]@.len());
                }
                assert forall|d: int, l: int| 0 <= d < rows && 0 <= l < cols implies #[trigger] tv[d][l]
                    == if d == distance && l == test_length {
                    filled
                } else {
                    before[d][l]
                } by {
                    assert(tv[d][l] == temp_ztps@[d]@[l].deep_view());
                    assert(before[d][l] == before_rows[d]@[l].deep_view());
                }
                assert forall|d: int, l: int, i: int|
                    0 <= d < rows && 0 <= l < cols && 0 <= i < tv[d][l].len() implies (
                #[trigger] tv[d][l][i]).len() == l * k by {
                    if d == distance && l == test_length {
                        assert(filled[i] == temp_ztps@[d]@[l]@[i]@);
                    } else {
                        assert(tv[d][l] == before[d][l]);
                    }
                }
            }
            test_length += 1;
        }
        distance += 1;
    }

    let mut zero_terminated_paths: Vec<Vec<BitPath>> = Vec::new();
    let mut aggregate: usize = 0;
    let mut distance: usize = 0;
    while distance < rows
        invariant
            k == numerators@.len(),
            rows == max_search_distance + 1,
            cols == trellis_len + 1,
            distance <= rows,
            table_filled(temp_ztps.deep_view(), q, k as int, rows as int, cols as int, rows as int, 0),
            zero_terminated_paths@.len() == distance,
            forall|d: int|
                0 <= d < distance ==> #[trigger] zero_terminated_paths.deep_view()[d] == ztp_bucket(
                    q,
                    d,
                    trellis_len as int,
                ),
            forall|d: int, i: int|
                0 <= d < distance && 0 <= i < zero_terminated_paths@[d]@.len() ==> (
                #[trigger] zero_terminated_paths@[d]@[i])@.len() == trellis_len * k,
            aggregate == if total_paths(q, trellis_len as int, distance as int) <= usize::MAX {
                total_paths(q, trellis_len as int, distance as int)
            } else {
                usize::MAX as int
            },
        decreases rows - distance,
    {
        proof {
            let tv = temp_ztps.deep_view();
            assert(tv.len() == temp_ztps@.len());
            assert(tv[distance as int].len() == temp_ztps@[distance as int]@.len());
            assert(tv[distance as int][trellis_len as int] == temp_ztps@[distance as int]@[trellis_len as int].deep_view());
            assert(tv[distance as int][trellis_len as int].len()
                == temp_ztps@[distance as int]@[trellis_len as int]@.len());
            lemma_total_paths_nonnegative(q, trellis_len as int, distance as int);
        }
        let paths = clone_paths(&temp_ztps[distance][trellis_len as usize]);
        let count = paths.len();
        assert(paths.deep_view().len() == paths@.len());
        proof {
            let tv = temp_ztps.deep_view();
            assert forall|i: int| 0 <= i < paths@.len() implies (#[trigger] paths@[i])@.len()
                == trellis_len * k by {
                assert(paths.deep_view()[i] == paths@[i]@);
                assert(tv[distance as int][trellis_len as int][i].len() == trellis_len * k);
            }
        }
        let ghost added = paths@;
        aggregate = if aggregate > usize::MAX - count {
            usize::MAX
        } else {
            aggregate + count
        };
        let ghost before = zero_terminated_paths.deep_view();
        let ghost before_rows = zero_terminated_paths@;
        zero_terminated_paths.push(paths);
        proof {
            assert forall|d: int, i: int|
                0 <= d < distance + 1 && 0 <= i < zero_terminated_paths@[d]@.len() implies (
            #[trigger] zero_terminated_paths@[d]@[i])@.len() == trellis_len * k by {
                if d < distance {
                    assert(zero_terminated_paths@[d] == before_rows[d]);
                } else {
                    assert(zero_terminated_paths@[d]@ == added);
                }
            }
            assert forall|d: int| 0 <= d < distance + 1 implies #[trigger] zero_terminated_paths.deep_view()[d]
                == ztp_bucket(q, d, trellis_len as int) by {
                assert(zero_terminated_paths.deep_view()[d] == zero_terminated_paths@[d].deep_view());
                if d < distance {
                    assert(before[d] == before_rows[d].deep_view());
                }
            }
        }
        distance += 1;
    }
    Ok(ZTPs { zero_terminated_paths, aggregate })
}

/// Whether the zero-terminated paths agree with the weight enumerator: for
/// every distance up to `max_search_distance` there are as many paths as the
/// coefficient of the enumerator at that distance says. Where they do not,
/// the events that the paths were put together from were not complete.
pub fn ztps_match_spectrum(
    ztps: &ZTPs,
    weight_spectrum: &PolyWrapper,
    max_search_distance: usize,
) -> (matching: bool)
    requires
        max_search_distance < ztps.zero_terminated_paths@.len(),
    ensures
        matching == forall|d: int|
            0 <= d <= max_search_distance ==> (#[trigger] ztps.zero_terminated_paths@[d])@.len()
                == coeff(weight_spectrum@, d),
{
    let total: usize = ztps.zero_terminated_paths.len();
    let mut distance: usize = 0;
    while distance <= max_search_distance
        invariant
            distance <= max_search_distance + 1,
            max_search_distance < total,
            total == ztps.zero_terminated_paths@.len(),
            forall|d: int|
                0 <= d < distance ==> (#[trigger] ztps.zero_terminated_paths@[d])@.len() == coeff(
                    weight_spectrum@,
                    d,
                ),
        decreases max_search_distance + 1 - distance,
    {
        let count = ztps.zero_terminated_paths[distance].len();
        if !weight_spectrum.coeff_equals(distance, count) {
            return false;
        }
        distance += 1;
    }
    true
}

proof fn lemma_total_paths_nonnegative(pieces: Pieces, l: int, upto: int)
    ensures
        total_paths(pieces, l, upto) >= 0,
    decreases upto,
{
    if upto > 0 {
        lemma_total_paths_nonnegative(pieces, l, upto - 1);
    }
}

} // verus!
