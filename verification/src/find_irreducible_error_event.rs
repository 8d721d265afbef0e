//! The search for irreducible error events: the paths that leave state zero
//! of a trellis on a nonzero input symbol and come back to it for the first
//! time at their end, sorted by the Hamming weight of what they put out.

use vstd::prelude::*;
use vstd::arithmetic::power2::pow2;
use crate::bitpath::{
    bv_clone, bv_extend_zeros, bv_len, bv_new, encode, lemma_concat_injective, lemma_encode_len,
    lemma_symbol_bits_injective, max_bits, push_symbol, symbol_bits, with_symbol, zeros, BitPath,
};
use crate::gf2::lemma_popcount16_bounds;
use crate::trellis::Trellis;

verus! {

/// The error events found, by distance: `error_events[d]` holds the events
/// whose output has the Hamming weight `d + 1`, all filled up with zero bits
/// to the length of the longest of them, and `error_event_lengths[d]` holds
/// for each of them the number of bits it had before that.
pub struct ErrorEvents {
    pub error_events: Vec<Vec<BitPath>>,
    pub error_event_lengths: Vec<Vec<u32>>,
}

/// The path `p` leaves state zero on a nonzero input symbol, passes no
/// state zero before its end, ends in state `s`, and puts out symbols of the
/// Hamming weight `d + 1` in all.
pub open spec fn diverging(t: &Trellis, p: Seq<u16>, s: int, d: int) -> bool {
    &&& p.len() >= 1
    &&& t.valid_inputs(p)
    &&& p[0] != 0
    &&& forall|j: int| 0 < j < p.len() ==> #[trigger] t.follow(0, p.take(j)) != 0
    &&& t.follow(0, p) == s
    &&& t.path_weight(0, p) == d + 1
}

/// The bits `bits`, of which the first `length` count, stand for the path
/// `p`: those first bits are the symbols of `p`, and the rest is zero.
pub open spec fn entry_encodes(bits: Seq<bool>, length: int, p: Seq<u16>, k: nat) -> bool {
    &&& length == p.len() * k
    &&& length <= bits.len()
    &&& bits.take(length) == encode(p, k)
    &&& forall|i: int| length <= i < bits.len() ==> !bits[i]
}

/// `bits`, of which the first `length` count, stand for an irreducible error
/// event of at most `depth` steps at the distance `d`.
pub open spec fn is_event_entry(
    t: &Trellis,
    k: nat,
    depth: int,
    d: int,
    bits: Seq<bool>,
    length: int,
) -> bool {
    exists|p: Seq<u16>|
        p.len() <= depth && diverging(t, p, 0, d) && #[trigger] entry_encodes(bits, length, p, k)
}

/// Some entry of `events`, with its length in `lengths`, stands for the
/// path `p`.
pub open spec fn has_entry(events: Seq<Seq<bool>>, lengths: Seq<u32>, p: Seq<u16>, k: nat) -> bool {
    exists|j: int|
        0 <= j < events.len() && #[trigger] entry_encodes(events[j], lengths[j] as int, p, k)
}

/// The entries `i` and `j` do not hold the same event: they differ in their
/// lengths or in the bits that count.
pub open spec fn lengths_or_bits_differ(
    events: Seq<Seq<bool>>,
    lengths: Seq<u32>,
    i: int,
    j: int,
) -> bool {
    lengths[i] != lengths[j] || events[i].take(lengths[i] as int) != events[j].take(
        lengths[j] as int,
    )
}

/// `events` and `lengths` hold exactly the irreducible error events of at
/// most `depth` steps at the distance `d` in the trellis `t`: each entry
/// stands for such an event, each such event has an entry, the entries come
/// in the order of their lengths, all are filled up to the length of the
/// last, and no two entries hold the same event.
pub open spec fn is_event_bucket(
    t: &Trellis,
    k: nat,
    depth: int,
    d: int,
    events: Seq<Seq<bool>>,
    lengths: Seq<u32>,
) -> bool {
    &&& events.len() == lengths.len()
    &&& forall|j: int|
        0 <= j < events.len() ==> #[trigger] is_event_entry(
            t,
            k,
            depth,
            d,
            events[j],
            lengths[j] as int,
        )
    &&& forall|p: Seq<u16>|
        p.len() <= depth && #[trigger] diverging(t, p, 0, d) ==> has_entry(events, lengths, p, k)
    &&& forall|i: int, j: int|
        0 <= i <= j < lengths.len() ==> #[trigger] lengths[i] <= #[trigger] lengths[j]
    &&& forall|j: int| 0 <= j < events.len() ==> (#[trigger] events[j]).len() == lengths.last()
    &&& forall|j: int| 0 <= j < lengths.len() ==> #[trigger] lengths[j] <= depth * k
    &&& forall|i: int, j: int|
        0 <= i < j < events.len() ==> #[trigger] lengths_or_bits_differ(events, lengths, i, j)
}

/// `events` and `lengths` hold, for every distance below `max`, exactly the
/// irreducible error events of at most `depth` steps in the trellis `t`.
pub open spec fn is_error_events(
    t: &Trellis,
    k: nat,
    max: int,
    depth: int,
    events: Seq<Seq<Seq<bool>>>,
    lengths: Seq<Seq<u32>>,
) -> bool {
    &&& events.len() == max
    &&& lengths.len() == max
    &&& forall|d: int|
        0 <= d < max ==> #[trigger] is_event_bucket(t, k, depth, d, events[d], lengths[d])
}

/// Among the error events found for a distance the first is a shortest one:
/// no irreducible error event of that distance, within the depth searched,
/// has fewer steps.
pub proof fn lemma_first_event_is_shortest(
    t: &Trellis,
    k: nat,
    max: int,
    depth: int,
    events: Seq<Seq<Seq<bool>>>,
    lengths: Seq<Seq<u32>>,
    d: int,
    p: Seq<u16>,
)
    requires
        is_error_events(t, k, max, depth, events, lengths),
        0 <= d < max,
        p.len() <= depth,
        diverging(t, p, 0, d),
    ensures
        lengths[d].len() > 0,
        lengths[d][0] <= p.len() * k,
{
    assert(is_event_bucket(t, k, depth, d, events[d], lengths[d]));
    assert(has_entry(events[d], lengths[d], p, k));
    let j = choose|j: int|
        0 <= j < events[d].len() && #[trigger] entry_encodes(
            events[d][j],
            lengths[d][j] as int,
            p,
            k,
        );
    assert(events[d].len() == lengths[d].len());
    assert(lengths[d][0] <= lengths[d][j]);
}

/// A path weighs at least as much as any of its beginnings.
proof fn lemma_path_weight_prefix(t: &Trellis, s: int, p: Seq<u16>, j: int)
    requires
        0 <= j <= p.len(),
    ensures
        t.path_weight(s, p.take(j)) <= t.path_weight(s, p),
    decreases p.len(),
{
    if j == p.len() {
        assert(p.take(j) =~= p);
    } else {
        lemma_path_weight_prefix(t, s, p.drop_last(), j);
        assert(p.drop_last().take(j) =~= p.take(j));
    }
}

/// A single edge that leaves state zero on a nonzero symbol is a diverging
/// path.
proof fn lemma_diverging_seed(t: &Trellis, m: u16)
    requires
        t.wf(),
        0 < m < t.num_input_symbols,
    ensures
        diverging(t, seq![m], t.next(0, m as int), t.edge_weight(0, m as int) - 1),
{
    let p = seq![m];
    assert(p.drop_last() =~= Seq::<u16>::empty());
    assert(p.last() == m);
    assert(t.follow(0, p.drop_last()) == 0);
    assert(t.path_weight(0, p.drop_last()) == 0);
}

/// A diverging path that has not come back to state zero diverges on by any
/// edge.
proof fn lemma_diverging_extend(t: &Trellis, p: Seq<u16>, s: int, d: int, m: u16)
    requires
        t.wf(),
        diverging(t, p, s, d),
        s != 0,
        m < t.num_input_symbols,
    ensures
        diverging(t, p.push(m), t.next(s, m as int), d + t.edge_weight(s, m as int)),
{
    let q = p.push(m);
    assert(q.drop_last() =~= p);
    assert(q.last() == m);
    assert forall|j: int| 0 < j < q.len() implies #[trigger] t.follow(0, q.take(j)) != 0 by {
        if j < p.len() {
            assert(q.take(j) =~= p.take(j));
        } else {
            assert(q.take(j) =~= p);
        }
    }
}

/// A diverging path of one step is a single edge out of state zero.
proof fn lemma_diverging_single(t: &Trellis, p: Seq<u16>, s: int, d: int)
    requires
        diverging(t, p, s, d),
        p.len() == 1,
    ensures
        p == seq![p[0]],
        s == t.next(0, p[0] as int),
        d == t.edge_weight(0, p[0] as int) - 1,
{
    assert(p =~= seq![p[0]]);
    assert(p.drop_last() =~= Seq::<u16>::empty());
    assert(t.follow(0, p.drop_last()) == 0);
    assert(t.path_weight(0, p.drop_last()) == 0);
}

/// A diverging path of more than one step is a diverging path, not back in
/// state zero, with one more edge.
proof fn lemma_diverging_split(t: &Trellis, p: Seq<u16>, s: int, d: int)
    requires
        t.wf(),
        t.outputs_carry_inputs(),
        diverging(t, p, s, d),
        p.len() >= 2,
    ensures
        ({
            let before = p.drop_last();
            let m = p.last() as int;
            let from = t.follow(0, before);
            &&& 0 < from < t.num_states
            &&& 0 <= d - t.edge_weight(from, m)
            &&& diverging(t, before, from, d - t.edge_weight(from, m))
            &&& s == t.next(from, m)
            &&& p == before.push(p.last())
        }),
{
    let before = p.drop_last();
    let m = p.last() as int;
    let from = t.follow(0, before);
    assert(before =~= p.take(p.len() - 1));
    assert(p =~= before.push(p.last()));
    crate::trellis::lemma_follow_in_range(t, 0, before);
    assert forall|j: int| 0 < j < before.len() implies #[trigger] t.follow(0, before.take(j))
        != 0 by {
        assert(before.take(j) =~= p.take(j));
    }
    // the first edge alone already weighs something
    lemma_path_weight_prefix(t, 0, before, 1);
    let first = before.take(1);
    assert(first.drop_last() =~= Seq::<u16>::empty());
    assert(first.last() == p[0]);
    assert(t.follow(0, first.drop_last()) == 0);
    assert(t.path_weight(0, first.drop_last()) == 0);
    assert(t.outputs.entry(0, p[0] as int) != 0);
    lemma_popcount16_bounds(t.outputs.entry(0, p[0] as int));
}

/// The paths of one depth of the search as bits: for every state, either
/// nothing or a list for every distance below the greatest, each with the
/// paths that end in that state at that distance.
pub type Column = Seq<Seq<Seq<Seq<bool>>>>;

spec fn column_shape(cv: Column, num_states: int, max: int, bit_len: int) -> bool {
    &&& cv.len() == num_states
    &&& forall|s: int|
        0 <= s < num_states ==> (#[trigger] cv[s]).len() == 0 || cv[s].len() == max
    &&& forall|s: int, d: int, j: int|
        0 <= s < num_states && 0 <= d < cv[s].len() && 0 <= j < cv[s][d].len() ==> (
        #[trigger] cv[s][d][j]).len() == bit_len
}

/// Every entry of the column is a diverging path of `len` steps that ends in
/// the entry's state at the entry's distance.
spec fn column_sound(t: &Trellis, k: nat, len: int, cv: Column) -> bool {
    forall|s: int, d: int, j: int|
        0 <= s < cv.len() && 0 <= d < cv[s].len() && 0 <= j < cv[s][d].len() ==> #[trigger] is_path_entry(
            t,
            k,
            len,
            s,
            d,
            cv[s][d][j],
        )
}

/// `bits` are the symbols of a diverging path of `len` steps that ends in
/// state `s` at the distance `d`.
spec fn is_path_entry(t: &Trellis, k: nat, len: int, s: int, d: int, bits: Seq<bool>) -> bool {
    exists|p: Seq<u16>| p.len() == len && diverging(t, p, s, d) && #[trigger] encode(p, k) == bits
}

/// Every diverging path of `len` steps at a distance below `max` has its
/// entry in the column.
spec fn column_complete(t: &Trellis, k: nat, max: int, len: int, cv: Column) -> bool {
    forall|p: Seq<u16>, s: int, d: int|
        p.len() == len && 0 <= s < cv.len() && 0 <= d < max && #[trigger] diverging(t, p, s, d)
            ==> cv[s].len() == max && cv[s][d].contains(encode(p, k))
}

/// `bits` is entry `(s, d, j)` of the column `pv` with the symbol `m`
/// appended, which takes it to the state `s2` and the distance `d2`.
spec fn is_extension(
    t: &Trellis,
    k: nat,
    pv: Column,
    s: int,
    d: int,
    j: int,
    m: int,
    s2: int,
    d2: int,
    bits: Seq<bool>,
) -> bool {
    &&& 1 <= s < pv.len()
    &&& 0 <= d < pv[s].len()
    &&& 0 <= j < pv[s][d].len()
    &&& 0 <= m < t.num_input_symbols
    &&& t.next(s, m) == s2
    &&& d + t.edge_weight(s, m) == d2
    &&& bits == with_symbol(pv[s][d][j], m as u16, k)
}

/// Every entry of the column `nv` is an entry of `pv` with one symbol more.
spec fn extends_from(t: &Trellis, k: nat, pv: Column, nv: Column) -> bool {
    forall|s2: int, d2: int, j2: int|
        0 <= s2 < nv.len() && 0 <= d2 < nv[s2].len() && 0 <= j2 < nv[s2][d2].len()
            ==> #[trigger] has_source(t, k, pv, s2, d2, nv[s2][d2][j2])
}

/// `bits`, at the state `s2` and the distance `d2`, is some entry of the
/// column `pv` with one symbol more.
spec fn has_source(t: &Trellis, k: nat, pv: Column, s2: int, d2: int, bits: Seq<bool>) -> bool {
    exists|s: int, d: int, j: int, m: int| #[trigger]
        is_extension(t, k, pv, s, d, j, m, s2, d2, bits)
}

/// Entry `(s, d, j)` of `pv` with the symbol `m` appended stands in `nv`,
/// unless that takes it to the distance `max` or beyond.
spec fn lands(t: &Trellis, k: nat, max: int, pv: Column, nv: Column, s: int, d: int, j: int, m: int)
    -> bool {
    let s2 = t.next(s, m);
    let d2 = d + t.edge_weight(s, m);
    d2 < max ==> nv[s2].len() == max && nv[s2][d2].contains(with_symbol(pv[s][d][j], m as u16, k))
}

/// `(s, d, m)` comes before `(sc, dc, mc)` in the order in which the search
/// goes through states, distances and input symbols.
spec fn done_before(s: int, d: int, m: int, sc: int, dc: int, mc: int) -> bool {
    s < sc || (s == sc && (d < dc || (d == dc && m < mc)))
}

/// All that the search has gone through before `(sc, dc, mc)` stands in `nv`.
spec fn extended_until(
    t: &Trellis,
    k: nat,
    max: int,
    pv: Column,
    nv: Column,
    sc: int,
    dc: int,
    mc: int,
) -> bool {
    forall|s: int, d: int, j: int, m: int|
        1 <= s < pv.len() && 0 <= d < pv[s].len() && 0 <= j < pv[s][d].len() && 0 <= m
            < t.num_input_symbols && done_before(s, d, m, sc, dc, mc) ==> #[trigger] lands(
            t,
            k,
            max,
            pv,
            nv,
            s,
            d,
            j,
            m,
        )
}

/// From one depth to the next: where a column holds exactly the diverging
/// paths of `len` steps, the column made of all their extensions holds
/// exactly those of `len + 1` steps.
proof fn lemma_column_step(t: &Trellis, k: nat, max: int, len: int, pv: Column, nv: Column)
    requires
        t.wf(),
        t.outputs_carry_inputs(),
        len >= 1,
        pv.len() == t.num_states,
        nv.len() == t.num_states,
        forall|s: int| 0 <= s < pv.len() ==> (#[trigger] pv[s]).len() == 0 || pv[s].len() == max,
        column_sound(t, k, len, pv),
        column_complete(t, k, max, len, pv),
        extends_from(t, k, pv, nv),
        extended_until(t, k, max, pv, nv, t.num_states as int, 0, 0),
    ensures
        column_sound(t, k, len + 1, nv),
        column_complete(t, k, max, len + 1, nv),
{
    assert forall|s2: int, d2: int, j2: int|
        0 <= s2 < nv.len() && 0 <= d2 < nv[s2].len() && 0 <= j2 < nv[s2][d2].len() implies #[trigger] is_path_entry(
        t,
        k,
        len + 1,
        s2,
        d2,
        nv[s2][d2][j2],
    ) by {
        assert(has_source(t, k, pv, s2, d2, nv[s2][d2][j2]));
        let (s, d, j, m) = choose|s: int, d: int, j: int, m: int| #[trigger]
            is_extension(t, k, pv, s, d, j, m, s2, d2, nv[s2][d2][j2]);
        let before = pv[s][d][j];
        assert(is_path_entry(t, k, len, s, d, before));
        let p = choose|p: Seq<u16>|
            p.len() == len && diverging(t, p, s, d) && #[trigger] encode(p, k) == before;
        lemma_diverging_extend(t, p, s, d, m as u16);
        let q = p.push(m as u16);
        assert(q.drop_last() =~= p);
        assert(encode(q, k) == nv[s2][d2][j2]);
    }
    assert(column_sound(t, k, len + 1, nv));
    assert forall|q: Seq<u16>, s2: int, d2: int|
        q.len() == len + 1 && 0 <= s2 < nv.len() && 0 <= d2 < max && #[trigger] diverging(
            t,
            q,
            s2,
            d2,
        ) implies nv[s2].len() == max && nv[s2][d2].contains(encode(q, k)) by {
        lemma_diverging_split(t, q, s2, d2);
        let p = q.drop_last();
        let m = q.last() as int;
        let s = t.follow(0, p);
        let d = d2 - t.edge_weight(s, m);
        assert(diverging(t, p, s, d));
        assert(pv[s].len() == max && pv[s][d].contains(encode(p, k)));
        let j = choose|j: int| 0 <= j < pv[s][d].len() && pv[s][d][j] == encode(p, k);
        assert(done_before(s, d, m, t.num_states as int, 0, 0));
        assert(lands(t, k, max, pv, nv, s, d, j, m));
    }
}

/// No two entries of the column hold the same bits.
spec fn column_distinct(cv: Column) -> bool {
    forall|s1: int, d1: int, j1: int, s2: int, d2: int, j2: int|
        #![trigger cv[s1][d1][j1], cv[s2][d2][j2]]
        0 <= s1 < cv.len() && 0 <= d1 < cv[s1].len() && 0 <= j1 < cv[s1][d1].len() && 0 <= s2
            < cv.len() && 0 <= d2 < cv[s2].len() && 0 <= j2 < cv[s2][d2].len() && (s1 != s2 || d1
            != d2 || j1 != j2) ==> cv[s1][d1][j1] != cv[s2][d2][j2]
}

/// `bits`, at the state `s2` and the distance `d2`, is an entry of the column
/// `pv` with one symbol more, and one that the search went through before
/// `(sc, dc, mc)`.
spec fn has_early_source(
    t: &Trellis,
    k: nat,
    pv: Column,
    s2: int,
    d2: int,
    bits: Seq<bool>,
    sc: int,
    dc: int,
    mc: int,
) -> bool {
    exists|s: int, d: int, j: int, m: int| #[trigger]
        is_extension(t, k, pv, s, d, j, m, s2, d2, bits) && done_before(s, d, m, sc, dc, mc)
}

/// Every entry of the column `nv` comes from what the search went through
/// before `(sc, dc, mc)`.
spec fn sourced_before(t: &Trellis, k: nat, pv: Column, nv: Column, sc: int, dc: int, mc: int)
    -> bool {
    forall|s2: int, d2: int, j2: int|
        0 <= s2 < nv.len() && 0 <= d2 < nv[s2].len() && 0 <= j2 < nv[s2][d2].len()
            ==> #[trigger] has_early_source(t, k, pv, s2, d2, nv[s2][d2][j2], sc, dc, mc)
}

/// What came from before one place of the search came from before any later
/// place.
proof fn lemma_sourced_later(
    t: &Trellis,
    k: nat,
    pv: Column,
    nv: Column,
    sc: int,
    dc: int,
    mc: int,
    sl: int,
    dl: int,
    ml: int,
)
    requires
        sourced_before(t, k, pv, nv, sc, dc, mc),
        done_before(sc, dc, mc, sl, dl, ml) || (sc == sl && dc == dl && mc == ml),
    ensures
        sourced_before(t, k, pv, nv, sl, dl, ml),
{
    assert forall|s2: int, d2: int, j2: int|
        0 <= s2 < nv.len() && 0 <= d2 < nv[s2].len() && 0 <= j2 < nv[s2][d2].len()
            implies #[trigger] has_early_source(t, k, pv, s2, d2, nv[s2][d2][j2], sl, dl, ml) by {
        assert(has_early_source(t, k, pv, s2, d2, nv[s2][d2][j2], sc, dc, mc));
        let (s, d, j, m) = choose|s: int, d: int, j: int, m: int| #[trigger]
            is_extension(t, k, pv, s, d, j, m, s2, d2, nv[s2][d2][j2]) && done_before(
                s,
                d,
                m,
                sc,
                dc,
                mc,
            );
        assert(is_extension(t, k, pv, s, d, j, m, s2, d2, nv[s2][d2][j2]) && done_before(
            s,
            d,
            m,
            sl,
            dl,
            ml,
        ));
    }
}

/// The column `after` holds the entries of `before` at their places, and at
/// the end of the list for the state `s2` and the distance `d2` the entries
/// for state `s` and distance `d` of `pv`, each with the symbol `m` behind it.
spec fn appended(
    pv: Column,
    before: Column,
    after: Column,
    k: nat,
    s: int,
    d: int,
    m: int,
    s2: int,
    d2: int,
) -> bool {
    &&& after.len() == before.len()
    &&& 0 <= s2 < before.len()
    &&& 0 <= d2 < before[s2].len()
    &&& forall|x: int| 0 <= x < before.len() ==> (#[trigger] after[x]).len() == before[x].len()
    &&& forall|x: int, y: int|
        0 <= x < before.len() && 0 <= y < before[x].len() ==> (#[trigger] after[x][y]).len()
            == before[x][y].len() + if x == s2 && y == d2 {
            pv[s][d].len()
        } else {
            0
        }
    &&& forall|x: int, y: int, j: int|
        0 <= x < before.len() && 0 <= y < before[x].len() && 0 <= j < before[x][y].len()
            ==> #[trigger] after[x][y][j] == before[x][y][j]
    &&& forall|j: int|
        0 <= j < pv[s][d].len() ==> #[trigger] after[s2][d2][before[s2][d2].len() + j]
            == with_symbol(pv[s][d][j], m as u16, k)
}

/// Appending the extensions of one list by one symbol keeps the entries of
/// a column distinct, and keeps track of where they come from.
proof fn lemma_appended_distinct(
    t: &Trellis,
    k: u16,
    max: int,
    bit_len: int,
    pv: Column,
    before: Column,
    after: Column,
    s: int,
    d: int,
    m: int,
)
    requires
        t.wf(),
        1 <= k <= 15,
        t.num_input_symbols <= (1u32 << k),
        column_shape(pv, t.num_states as int, max, bit_len),
        column_shape(before, t.num_states as int, max, bit_len + k),
        column_distinct(pv),
        column_distinct(before),
        sourced_before(t, k as nat, pv, before, s, d, m),
        1 <= s < t.num_states,
        0 <= d < pv[s].len(),
        0 <= m < t.num_input_symbols,
        appended(pv, before, after, k as nat, s, d, m, t.next(s, m), d + t.edge_weight(s, m)),
    ensures
        column_distinct(after),
        sourced_before(t, k as nat, pv, after, s, d, m + 1),
{
    let s2 = t.next(s, m);
    let d2 = d + t.edge_weight(s, m);
    let old_len = before[s2][d2].len() as int;
    lemma_sourced_later(t, k as nat, pv, before, s, d, m, s, d, m + 1);
    assert forall|x: int, y: int, j: int|
        0 <= x < after.len() && 0 <= y < after[x].len() && 0 <= j < after[x][y].len()
            implies #[trigger] has_early_source(
        t,
        k as nat,
        pv,
        x,
        y,
        after[x][y][j],
        s,
        d,
        m + 1,
    ) by {
        if x == s2 && y == d2 && j >= old_len {
            let i = j - old_len;
            assert(after[s2][d2][old_len + i] == with_symbol(pv[s][d][i], m as u16, k as nat));
            assert(is_extension(t, k as nat, pv, s, d, i, m, x, y, after[x][y][j]) && done_before(
                s,
                d,
                m,
                s,
                d,
                m + 1,
            ));
        } else {
            assert(after[x][y][j] == before[x][y][j]);
            assert(has_early_source(t, k as nat, pv, x, y, before[x][y][j], s, d, m + 1));
        }
    }
    assert forall|x1: int, y1: int, j1: int, x2: int, y2: int, j2: int|
        #![trigger after[x1][y1][j1], after[x2][y2][j2]]
        0 <= x1 < after.len() && 0 <= y1 < after[x1].len() && 0 <= j1 < after[x1][y1].len() && 0
            <= x2 < after.len() && 0 <= y2 < after[x2].len() && 0 <= j2 < after[x2][y2].len() && (
        x1 != x2 || y1 != y2 || j1 != j2) implies after[x1][y1][j1] != after[x2][y2][j2] by {
        let new1 = x1 == s2 && y1 == d2 && j1 >= old_len;
        let new2 = x2 == s2 && y2 == d2 && j2 >= old_len;
        if !new1 && !new2 {
            assert(after[x1][y1][j1] == before[x1][y1][j1]);
            assert(after[x2][y2][j2] == before[x2][y2][j2]);
        } else if new1 && new2 {
            let i1 = j1 - old_len;
            let i2 = j2 - old_len;
            assert(after[s2][d2][old_len + i1] == with_symbol(pv[s][d][i1], m as u16, k as nat));
            assert(after[s2][d2][old_len + i2] == with_symbol(pv[s][d][i2], m as u16, k as nat));
            assert(pv[s][d][i1] != pv[s][d][i2]);
            assert(pv[s][d][i1].len() == bit_len && pv[s][d][i2].len() == bit_len);
            if after[x1][y1][j1] == after[x2][y2][j2] {
                lemma_concat_injective(
                    pv[s][d][i1],
                    symbol_bits(m as u16, k as nat),
                    pv[s][d][i2],
                    symbol_bits(m as u16, k as nat),
                );
            }
        } else {
            // one entry is new and the other was there before
            let (xn, yn, jn, xo, yo, jo) = if new1 {
                (x1, y1, j1, x2, y2, j2)
            } else {
                (x2, y2, j2, x1, y1, j1)
            };
            let i = jn - old_len;
            assert(after[s2][d2][old_len + i] == with_symbol(pv[s][d][i], m as u16, k as nat));
            assert(after[xo][yo][jo] == before[xo][yo][jo]);
            assert(has_early_source(t, k as nat, pv, xo, yo, before[xo][yo][jo], s, d, m));
            let (so, dd, jj, mo) = choose|so: int, dd: int, jj: int, mo: int| #[trigger]
                is_extension(t, k as nat, pv, so, dd, jj, mo, xo, yo, before[xo][yo][jo])
                    && done_before(so, dd, mo, s, d, m);
            assert(pv[so][dd][jj].len() == bit_len && pv[s][d][i].len() == bit_len);
            if after[xn][yn][jn] == after[xo][yo][jo] {
                lemma_concat_injective(
                    pv[s][d][i],
                    symbol_bits(m as u16, k as nat),
                    pv[so][dd][jj],
                    symbol_bits(mo as u16, k as nat),
                );
                assert(((m as u16) as u32) < (1u32 << k) && ((mo as u16) as u32) < (1u32 << k));
                lemma_symbol_bits_injective(m as u16, mo as u16, k);
                assert(m == mo);
                if so != s || dd != d || jj != i {
                    assert(pv[so][dd][jj] != pv[s][d][i]);
                }
                assert(false);
            }
        }
    }
}

/// The column `after` holds all that `before` holds, at the same places, and
/// perhaps more behind it.
spec fn grows(before: Column, after: Column) -> bool {
    &&& before.len() == after.len()
    &&& forall|s: int|
        0 <= s < before.len() && (#[trigger] before[s]).len() != 0 ==> after[s].len()
            == before[s].len()
    &&& forall|s: int, d: int|
        #![trigger before[s][d]]
        0 <= s < before.len() && 0 <= d < before[s].len() ==> before[s][d].len()
            <= after[s][d].len()
    &&& forall|s: int, d: int, j: int|
        #![trigger before[s][d][j]]
        0 <= s < before.len() && 0 <= d < before[s].len() && 0 <= j < before[s][d].len()
            ==> after[s][d][j] == before[s][d][j]
}

/// What stands in a column still stands in it when it has grown.
proof fn lemma_grows_keeps(
    t: &Trellis,
    k: nat,
    max: int,
    pv: Column,
    before: Column,
    after: Column,
    sc: int,
    dc: int,
    mc: int,
)
    requires
        t.wf(),
        pv.len() == t.num_states,
        before.len() == t.num_states,
        max > 0,
        extended_until(t, k, max, pv, before, sc, dc, mc),
        grows(before, after),
    ensures
        extended_until(t, k, max, pv, after, sc, dc, mc),
{
    assert forall|s: int, d: int, j: int, m: int|
        1 <= s < pv.len() && 0 <= d < pv[s].len() && 0 <= j < pv[s][d].len() && 0 <= m
            < t.num_input_symbols && done_before(s, d, m, sc, dc, mc) implies #[trigger] lands(
        t,
        k,
        max,
        pv,
        after,
        s,
        d,
        j,
        m,
    ) by {
        assert(lands(t, k, max, pv, before, s, d, j, m));
        let s2 = t.next(s, m);
        let d2 = d + t.edge_weight(s, m);
        if d2 < max {
            lemma_popcount16_bounds(t.outputs.entry(s, m));
            let bits = with_symbol(pv[s][d][j], m as u16, k);
            let i = choose|i: int| 0 <= i < before[s2][d2].len() && before[s2][d2][i] == bits;
            assert(before[s2].len() != 0);
            assert(after[s2][d2][i] == bits);
        }
    }
}

/// A list of `max` empty lists of paths.
fn empty_buckets(max: usize) -> (buckets: Vec<Vec<BitPath>>)
    ensures
        buckets@.len() == max,
        forall|d: int| 0 <= d < max ==> (#[trigger] buckets@[d])@.len() == 0,
{
    let mut buckets: Vec<Vec<BitPath>> = Vec::new();
    let mut d: usize = 0;
    while d < max
        invariant
            d <= max,
            buckets@.len() == d,
            forall|e: int| 0 <= e < d ==> (#[trigger] buckets@[e])@.len() == 0,
        decreases max - d,
    {
        buckets.push(Vec::new());
        d += 1;
    }
    buckets
}

/// Appends to `dest` a copy of every path of `source` with the `k` bits of
/// the symbol `m` behind it.
fn extend_paths(source: &Vec<BitPath>, m: u16, k: u16, dest: &mut Vec<BitPath>)
    requires
        k <= 16,
        forall|j: int| 0 <= j < source@.len() ==> (#[trigger] source@[j])@.len() + k <= max_bits(),
    ensures
        final(dest)@.len() == old(dest)@.len() + source@.len(),
        forall|j: int| 0 <= j < old(dest)@.len() ==> #[trigger] final(dest)@[j] == old(dest)@[j],
        forall|j: int|
            0 <= j < source@.len() ==> (#[trigger] final(dest)@[old(dest)@.len() + j])@
                == with_symbol(source@[j]@, m, k as nat),
{
    let ghost before = dest@;
    let mut j: usize = 0;
    while j < source.len()
        invariant
            j <= source@.len(),
            k <= 16,
            forall|i: int|
                0 <= i < source@.len() ==> (#[trigger] source@[i])@.len() + k <= max_bits(),
            dest@.len() == before.len() + j,
            forall|i: int| 0 <= i < before.len() ==> #[trigger] dest@[i] == before[i],
            forall|i: int|
                0 <= i < j ==> (#[trigger] dest@[before.len() + i])@ == with_symbol(
                    source@[i]@,
                    m,
                    k as nat,
                ),
        decreases source@.len() - j,
    {
        let mut path = bv_clone(&source[j]);
        push_symbol(&mut path, m, k);
        dest.push(path);
        j += 1;
    }
}

/// Takes every path of `prev` that ends in state `s` at the distance `d` on
/// by the input symbol `m`, into the list of `column` for the state and the
/// distance that this leads to; nothing is added where the distance would
/// reach `max`.
fn extend_into(
    trellis: &Trellis,
    k: u16,
    max: usize,
    prev: &Vec<Vec<Vec<BitPath>>>,
    column: &mut Vec<Vec<Vec<BitPath>>>,
    s: usize,
    d: usize,
    m: usize,
    Ghost(bit_len): Ghost<int>,
)
    requires
        trellis.wf(),
        1 <= k <= 15,
        max > 0,
        0 <= bit_len,
        bit_len + k <= max_bits(),
        column_shape(prev.deep_view(), trellis.num_states as int, max as int, bit_len),
        column_shape(old(column).deep_view(), trellis.num_states as int, max as int, bit_len + k),
        extends_from(trellis, k as nat, prev.deep_view(), old(column).deep_view()),
        extended_until(
            trellis,
            k as nat,
            max as int,
            prev.deep_view(),
            old(column).deep_view(),
            s as int,
            d as int,
            m as int,
        ),
        1 <= s < trellis.num_states,
        d < prev@[s as int]@.len(),
        m < trellis.num_input_symbols,
        trellis.num_input_symbols <= (1u32 << k),
        column_distinct(prev.deep_view()),
        column_distinct(old(column).deep_view()),
        sourced_before(
            trellis,
            k as nat,
            prev.deep_view(),
            old(column).deep_view(),
            s as int,
            d as int,
            m as int,
        ),
    ensures
        column_shape(final(column).deep_view(), trellis.num_states as int, max as int, bit_len + k),
        extends_from(trellis, k as nat, prev.deep_view(), final(column).deep_view()),
        column_distinct(final(column).deep_view()),
        sourced_before(
            trellis,
            k as nat,
            prev.deep_view(),
            final(column).deep_view(),
            s as int,
            d as int,
            m + 1,
        ),
        extended_until(
            trellis,
            k as nat,
            max as int,
            prev.deep_view(),
            final(column).deep_view(),
            s as int,
            d as int,
            m + 1,
        ),
{
    let ghost pv = prev.deep_view();
    let ghost c0 = column.deep_view();
    let next_state: usize = *trellis.next_states.index(s, m) as usize;
    proof {
        assert(0 <= trellis.next(s as int, m as int) < trellis.num_states);
        assert(c0.len() == column@.len());
        assert(pv.len() == prev@.len());
        assert(c0[next_state as int].len() == column@[next_state as int]@.len());
    }
    if column[next_state].len() == 0 {
        column[next_state] = empty_buckets(max);
    }
    let ghost c1 = column.deep_view();
    let weight: usize = trellis.outputs.index(s, m).count_ones() as usize;
    proof {
        lemma_popcount16_bounds(trellis.outputs.entry(s as int, m as int));
        assert(c1.len() == column@.len());
        assert forall|s2: int| 0 <= s2 < c1.len() implies c1[s2].len() == column@[s2]@.len() by {}
        assert forall|s2: int, d2: int, j2: int|
            0 <= s2 < c1.len() && 0 <= d2 < c1[s2].len() && 0 <= j2 < c1[s2][d2].len() implies 0
            <= s2 < c0.len() && 0 <= d2 < c0[s2].len() && 0 <= j2 < c0[s2][d2].len()
            && #[trigger] c1[s2][d2][j2] == c0[s2][d2][j2] by {
            assert(c1[s2][d2].len() == column@[s2]@[d2]@.len());
            if s2 == next_state && c0[s2].len() == 0 {
                assert(column@[s2]@[d2]@.len() == 0);
            }
        }
        assert forall|s2: int, d2: int, j2: int|
            0 <= s2 < c1.len() && 0 <= d2 < c1[s2].len() && 0 <= j2 < c1[s2][d2].len()
                implies #[trigger] has_source(trellis, k as nat, pv, s2, d2, c1[s2][d2][j2]) by {
            assert(c1[s2][d2][j2] == c0[s2][d2][j2]);
            assert(has_source(trellis, k as nat, pv, s2, d2, c0[s2][d2][j2]));
        }
        assert(extends_from(trellis, k as nat, pv, c1));
        assert forall|s2: int, d2: int, j2: int|
            0 <= s2 < c1.len() && 0 <= d2 < c1[s2].len() && 0 <= j2 < c1[s2][d2].len()
                implies #[trigger] has_early_source(
            trellis,
            k as nat,
            pv,
            s2,
            d2,
            c1[s2][d2][j2],
            s as int,
            d as int,
            m as int,
        ) by {
            assert(c1[s2][d2][j2] == c0[s2][d2][j2]);
            assert(has_early_source(
                trellis,
                k as nat,
                pv,
                s2,
                d2,
                c0[s2][d2][j2],
                s as int,
                d as int,
                m as int,
            ));
        }
        assert(column_distinct(c1)) by {
            assert forall|s1: int, d1: int, j1: int, s2: int, d2: int, j2: int|
                #![trigger c1[s1][d1][j1], c1[s2][d2][j2]]
                0 <= s1 < c1.len() && 0 <= d1 < c1[s1].len() && 0 <= j1 < c1[s1][d1].len() && 0
                    <= s2 < c1.len() && 0 <= d2 < c1[s2].len() && 0 <= j2 < c1[s2][d2].len() && (
                s1 != s2 || d1 != d2 || j1 != j2) implies c1[s1][d1][j1] != c1[s2][d2][j2] by {
                assert(c1[s1][d1][j1] == c0[s1][d1][j1]);
                assert(c1[s2][d2][j2] == c0[s2][d2][j2]);
            }
        }
        assert(column_shape(c1, trellis.num_states as int, max as int, bit_len + k)) by {
            assert forall|s2: int| 0 <= s2 < c1.len() implies (#[trigger] c1[s2]).len() == 0
                || c1[s2].len() == max by {
                assert(c0[s2].len() == 0 || c0[s2].len() == max);
            }
            assert forall|s2: int, d2: int, j2: int|
                0 <= s2 < c1.len() && 0 <= d2 < c1[s2].len() && 0 <= j2 < c1[s2][d2].len()
                    implies (#[trigger] c1[s2][d2][j2]).len() == bit_len + k by {
                assert(c1[s2][d2][j2] == c0[s2][d2][j2]);
            }
        }
        assert(grows(c0, c1));
        lemma_grows_keeps(trellis, k as nat, max as int, pv, c0, c1, s as int, d as int, m as int);
        assert forall|j: int| 0 <= j < prev@[s as int]@[d as int]@.len() implies (
        #[trigger] prev@[s as int]@[d as int]@[j])@.len() + k <= max_bits() by {
            assert(pv[s as int][d as int][j].len() == bit_len);
        }
    }
    assert(pv[s as int].len() == prev@[s as int]@.len());
    if weight < max - d {
        let ghost old_len = column@[next_state as int]@[d + weight]@.len();
        let ghost source = prev@[s as int]@[d as int];
        extend_paths(&prev[s][d], m as u16, k, &mut column[next_state][d + weight]);
        proof {
            let c2 = column.deep_view();
            assert(pv[s as int][d as int].len() == source@.len());
            assert(c2[next_state as int].len() == column@[next_state as int]@.len());
            assert(c2[next_state as int][d + weight].len() == column@[next_state as int]@[d
                + weight]@.len());
            assert forall|j: int| 0 <= j < source@.len() implies #[trigger] c2[next_state as int][d
                + weight][old_len + j] == with_symbol(pv[s as int][d as int][j], m as u16, k as nat) by {
                assert(c2[next_state as int][d + weight][old_len + j]
                    == column@[next_state as int]@[d + weight]@[old_len + j]@);
                assert(pv[s as int][d as int][j] == source@[j]@);
            }
            assert(grows(c1, c2));
            assert(appended(
                pv,
                c1,
                c2,
                k as nat,
                s as int,
                d as int,
                m as int,
                next_state as int,
                d + weight,
            )) by {
                assert forall|x: int| 0 <= x < c1.len() implies (#[trigger] c2[x]).len()
                    == c1[x].len() by {
                    assert(c2[x].len() == column@[x]@.len());
                }
                assert forall|x: int, y: int| 0 <= x < c1.len() && 0 <= y < c1[x].len() implies (
                #[trigger] c2[x][y]).len() == c1[x][y].len() + if x == next_state && y == d
                    + weight {
                    pv[s as int][d as int].len()
                } else {
                    0
                } by {
                    assert(c2[x][y].len() == column@[x]@[y]@.len());
                }
                assert forall|x: int, y: int, j: int|
                    0 <= x < c1.len() && 0 <= y < c1[x].len() && 0 <= j < c1[x][y].len()
                        implies #[trigger] c2[x][y][j] == c1[x][y][j] by {
                    assert(c2[x][y][j] == column@[x]@[y]@[j]@);
                }
            }
            lemma_appended_distinct(
                trellis,
                k,
                max as int,
                bit_len,
                pv,
                c1,
                c2,
                s as int,
                d as int,
                m as int,
            );
            lemma_grows_keeps(
                trellis,
                k as nat,
                max as int,
                pv,
                c1,
                c2,
                s as int,
                d as int,
                m as int,
            );
            assert forall|j: int| 0 <= j < pv[s as int][d as int].len() implies #[trigger] lands(
                trellis,
                k as nat,
                max as int,
                pv,
                c2,
                s as int,
                d as int,
                j,
                m as int,
            ) by {
                assert(c2[next_state as int][d + weight][old_len + j] == with_symbol(
                    pv[s as int][d as int][j],
                    m as u16,
                    k as nat,
                ));
            }
            assert forall|s2: int, d2: int, j2: int|
                0 <= s2 < c2.len() && 0 <= d2 < c2[s2].len() && 0 <= j2 < c2[s2][d2].len()
                    implies #[trigger] has_source(
                trellis,
                k as nat,
                pv,
                s2,
                d2,
                c2[s2][d2][j2],
            ) by {
                if s2 == next_state && d2 == d + weight && j2 >= old_len {
                    let j = j2 - old_len;
                    assert(c2[next_state as int][d + weight][old_len + j] == with_symbol(
                        pv[s as int][d as int][j],
                        m as u16,
                        k as nat,
                    ));
                    assert(is_extension(
                        trellis,
                        k as nat,
                        pv,
                        s as int,
                        d as int,
                        j2 - old_len,
                        m as int,
                        s2,
                        d2,
                        c2[s2][d2][j2],
                    ));
                } else {
                    assert(c2[s2][d2][j2] == c1[s2][d2][j2]);
                    assert(has_source(trellis, k as nat, pv, s2, d2, c0[s2][d2][j2]));
                }
            }
            assert forall|s2: int| 0 <= s2 < c2.len() implies (#[trigger] c2[s2]).len() == 0
                || c2[s2].len() == max by {
                assert(c2[s2].len() == column@[s2]@.len());
                assert(c1[s2].len() == 0 || c1[s2].len() == max);
            }
            assert forall|s2: int, d2: int, j2: int|
                0 <= s2 < c2.len() && 0 <= d2 < c2[s2].len() && 0 <= j2 < c2[s2][d2].len()
                    implies (#[trigger] c2[s2][d2][j2]).len() == bit_len + k by {
                if s2 == next_state && d2 == d + weight && j2 >= old_len {
                    let j = j2 - old_len;
                    assert(c2[next_state as int][d + weight][old_len + j] == with_symbol(
                        pv[s as int][d as int][j],
                        m as u16,
                        k as nat,
                    ));
                    assert(pv[s as int][d as int][j].len() == bit_len);
                    lemma_with_symbol_len(pv[s as int][d as int][j], m as u16, k as nat);
                } else {
                    assert(c2[s2][d2][j2] == c1[s2][d2][j2]);
                    assert(c1[s2][d2][j2] == c0[s2][d2][j2]);
                }
            }
        }
    }
    proof {
        if !(weight < max - d) {
            lemma_sourced_later(
                trellis,
                k as nat,
                pv,
                c1,
                s as int,
                d as int,
                m as int,
                s as int,
                d as int,
                m + 1,
            );
        }
    }
    proof {
        let c3 = column.deep_view();
        assert forall|s1: int, d1: int, j1: int, m1: int|
            1 <= s1 < pv.len() && 0 <= d1 < pv[s1].len() && 0 <= j1 < pv[s1][d1].len() && 0 <= m1
                < trellis.num_input_symbols && done_before(
                s1,
                d1,
                m1,
                s as int,
                d as int,
                m + 1,
            ) implies #[trigger] lands(trellis, k as nat, max as int, pv, c3, s1, d1, j1, m1) by {
            if !done_before(s1, d1, m1, s as int, d as int, m as int) {
                assert(s1 == s && d1 == d && m1 == m);
            }
        }
    }
}

/// A column with nothing for any of `num_states` states.
fn empty_column(num_states: usize) -> (column: Vec<Vec<Vec<BitPath>>>)
    ensures
        column@.len() == num_states,
        forall|s: int| 0 <= s < num_states ==> (#[trigger] column@[s])@.len() == 0,
{
    let mut column: Vec<Vec<Vec<BitPath>>> = Vec::new();
    let mut s: usize = 0;
    while s < num_states
        invariant
            s <= num_states,
            column@.len() == s,
            forall|x: int| 0 <= x < s ==> (#[trigger] column@[x])@.len() == 0,
        decreases num_states - s,
    {
        column.push(Vec::new());
        s += 1;
    }
    column
}

/// The column of the next depth: every path of `prev` that has not come
/// back to state zero, taken on by every input symbol, and kept where its
/// distance stays below `max`.
fn extend_column(
    trellis: &Trellis,
    k: u16,
    max: usize,
    prev: &Vec<Vec<Vec<BitPath>>>,
    Ghost(bit_len): Ghost<int>,
) -> (column: Vec<Vec<Vec<BitPath>>>)
    requires
        trellis.wf(),
        1 <= k <= 15,
        max > 0,
        0 <= bit_len,
        bit_len + k <= max_bits(),
        column_shape(prev.deep_view(), trellis.num_states as int, max as int, bit_len),
        trellis.num_input_symbols <= (1u32 << k),
        column_distinct(prev.deep_view()),
    ensures
        column_distinct(column.deep_view()),
        column_shape(column.deep_view(), trellis.num_states as int, max as int, bit_len + k),
        extends_from(trellis, k as nat, prev.deep_view(), column.deep_view()),
        extended_until(
            trellis,
            k as nat,
            max as int,
            prev.deep_view(),
            column.deep_view(),
            trellis.num_states as int,
            0,
            0,
        ),
{
    let num_states = trellis.num_states;
    let num_inputs = trellis.num_input_symbols;
    let ghost pv = prev.deep_view();
    let mut column = empty_column(num_states);
    proof {
        let cv = column.deep_view();
        assert(cv.len() == column@.len());
        assert(pv.len() == prev@.len());
        assert forall|s: int| 0 <= s < cv.len() implies (#[trigger] cv[s]).len() == 0 by {
            assert(cv[s].len() == column@[s]@.len());
        }
    }
    let mut s: usize = 1;
    while s < num_states
        invariant
            trellis.wf(),
            num_states == trellis.num_states,
            num_inputs == trellis.num_input_symbols,
            1 <= s,
            1 <= k <= 15,
            max > 0,
            0 <= bit_len,
            bit_len + k <= max_bits(),
            pv == prev.deep_view(),
            column_shape(pv, num_states as int, max as int, bit_len),
            column_shape(column.deep_view(), num_states as int, max as int, bit_len + k),
            extends_from(trellis, k as nat, pv, column.deep_view()),
            extended_until(trellis, k as nat, max as int, pv, column.deep_view(), s as int, 0, 0),
            trellis.num_input_symbols <= (1u32 << k),
            column_distinct(pv),
            column_distinct(column.deep_view()),
            sourced_before(trellis, k as nat, pv, column.deep_view(), s as int, 0, 0),
        decreases num_states - s,
    {
        assert(pv.len() == prev@.len());
        assert(pv[s as int].len() == prev@[s as int]@.len());
        if prev[s].len() != 0 {
            let mut d: usize = 0;
            while d < max
                invariant
                    trellis.wf(),
                    num_states == trellis.num_states,
                    num_inputs == trellis.num_input_symbols,
                    1 <= s < num_states,
                    d <= max,
                    1 <= k <= 15,
                    max > 0,
                    0 <= bit_len,
                    bit_len + k <= max_bits(),
                    pv == prev.deep_view(),
                    prev@.len() == num_states,
                    prev@[s as int]@.len() == max,
                    column_shape(pv, num_states as int, max as int, bit_len),
                    column_shape(column.deep_view(), num_states as int, max as int, bit_len + k),
                    extends_from(trellis, k as nat, pv, column.deep_view()),
                    extended_until(
                        trellis,
                        k as nat,
                        max as int,
                        pv,
                        column.deep_view(),
                        s as int,
                        d as int,
                        0,
                    ),
                    trellis.num_input_symbols <= (1u32 << k),
                    column_distinct(pv),
                    column_distinct(column.deep_view()),
                    sourced_before(trellis, k as nat, pv, column.deep_view(), s as int, d as int, 0),
                decreases max - d,
            {
                assert(pv[s as int][d as int].len() == prev@[s as int]@[d as int]@.len());
                if prev[s][d].len() != 0 {
                    let mut m: usize = 0;
                    while m < num_inputs
                        invariant
                            trellis.wf(),
                            num_states == trellis.num_states,
                            num_inputs == trellis.num_input_symbols,
                            1 <= s < num_states,
                            d < max,
                            m <= num_inputs,
                            1 <= k <= 15,
                            max > 0,
                            0 <= bit_len,
                            bit_len + k <= max_bits(),
                            pv == prev.deep_view(),
                            prev@.len() == num_states,
                            prev@[s as int]@.len() == max,
                            column_shape(pv, num_states as int, max as int, bit_len),
                            column_shape(
                                column.deep_view(),
                                num_states as int,
                                max as int,
                                bit_len + k,
                            ),
                            extends_from(trellis, k as nat, pv, column.deep_view()),
                            extended_until(
                                trellis,
                                k as nat,
                                max as int,
                                pv,
                                column.deep_view(),
                                s as int,
                                d as int,
                                m as int,
                            ),
                            trellis.num_input_symbols <= (1u32 << k),
                            column_distinct(pv),
                            column_distinct(column.deep_view()),
                            sourced_before(
                                trellis,
                                k as nat,
                                pv,
                                column.deep_view(),
                                s as int,
                                d as int,
                                m as int,
                            ),
                        decreases num_inputs - m,
                    {
                        extend_into(trellis, k, max, prev, &mut column, s, d, m, Ghost(bit_len));
                        m += 1;
                    }
                }
                proof {
                    let cv = column.deep_view();
                    if prev@[s as int]@[d as int]@.len() != 0 {
                        lemma_sourced_later(
                            trellis,
                            k as nat,
                            pv,
                            cv,
                            s as int,
                            d as int,
                            num_inputs as int,
                            s as int,
                            d + 1,
                            0,
                        );
                    } else {
                        lemma_sourced_later(
                            trellis,
                            k as nat,
                            pv,
                            cv,
                            s as int,
                            d as int,
                            0,
                            s as int,
                            d + 1,
                            0,
                        );
                    }
                    assert forall|s1: int, d1: int, j1: int, m1: int|
                        1 <= s1 < pv.len() && 0 <= d1 < pv[s1].len() && 0 <= j1 < pv[s1][d1].len()
                            && 0 <= m1 < trellis.num_input_symbols && done_before(
                            s1,
                            d1,
                            m1,
                            s as int,
                            d + 1,
                            0,
                        ) implies #[trigger] lands(
                        trellis,
                        k as nat,
                        max as int,
                        pv,
                        cv,
                        s1,
                        d1,
                        j1,
                        m1,
                    ) by {
                        if s1 == s && d1 == d {
                            assert(done_before(s1, d1, m1, s as int, d as int, num_inputs as int));
                        } else {
                            assert(done_before(s1, d1, m1, s as int, d as int, 0));
                        }
                    }
                }
                d += 1;
            }
        }
        proof {
            let cv = column.deep_view();
            if prev@[s as int]@.len() != 0 {
                lemma_sourced_later(trellis, k as nat, pv, cv, s as int, max as int, 0, s + 1, 0, 0);
            } else {
                lemma_sourced_later(trellis, k as nat, pv, cv, s as int, 0, 0, s + 1, 0, 0);
            }
            assert forall|s1: int, d1: int, j1: int, m1: int|
                1 <= s1 < pv.len() && 0 <= d1 < pv[s1].len() && 0 <= j1 < pv[s1][d1].len() && 0
                    <= m1 < trellis.num_input_symbols && done_before(
                    s1,
                    d1,
                    m1,
                    s + 1,
                    0,
                    0,
                ) implies #[trigger] lands(trellis, k as nat, max as int, pv, cv, s1, d1, j1, m1) by {
                if s1 == s {
                    assert(pv[s1].len() == max);
                    assert(done_before(s1, d1, m1, s as int, max as int, 0));
                } else {
                    assert(done_before(s1, d1, m1, s as int, 0, 0));
                }
            }
        }
        s += 1;
    }
    column
}

/// The single edge out of state zero on the symbol `m` stands in the column
/// `cv`, unless its distance is `max` or more.
spec fn seed_lands(t: &Trellis, k: nat, max: int, cv: Column, m: int) -> bool {
    let s2 = t.next(0, m);
    let d2 = t.edge_weight(0, m) - 1;
    d2 < max ==> cv[s2].len() == max && cv[s2][d2].contains(encode(seq![m as u16], k))
}

/// The edges out of state zero on the nonzero symbols below `mc` stand in
/// the column `cv`.
spec fn seeded_until(t: &Trellis, k: nat, max: int, cv: Column, mc: int) -> bool {
    forall|m: int| 1 <= m < mc ==> #[trigger] seed_lands(t, k, max, cv, m)
}

proof fn lemma_grows_keeps_seeds(
    t: &Trellis,
    k: nat,
    max: int,
    before: Column,
    after: Column,
    mc: int,
)
    requires
        t.wf(),
        t.outputs_carry_inputs(),
        mc <= t.num_input_symbols,
        before.len() == t.num_states,
        max > 0,
        seeded_until(t, k, max, before, mc),
        grows(before, after),
    ensures
        seeded_until(t, k, max, after, mc),
{
    assert forall|m: int| 1 <= m < mc implies #[trigger] seed_lands(t, k, max, after, m) by {
        assert(seed_lands(t, k, max, before, m));
        let s2 = t.next(0, m);
        let d2 = t.edge_weight(0, m) - 1;
        if d2 < max {
            assert(t.outputs.entry(0, m) != 0);
            lemma_popcount16_bounds(t.outputs.entry(0, m));
            let bits = encode(seq![m as u16], k);
            let i = choose|i: int| 0 <= i < before[s2][d2].len() && before[s2][d2][i] == bits;
            assert(before[s2].len() != 0);
            assert(after[s2][d2][i] == bits);
        }
    }
}

/// `bits` is the single edge on a nonzero symbol below `mc`.
spec fn is_seed_before(k: nat, bits: Seq<bool>, mc: int) -> bool {
    exists|m: u16| 1 <= m < mc && #[trigger] encode(seq![m], k) == bits
}

/// Every entry of the column is a single edge on a nonzero symbol below
/// `mc`.
spec fn seeds_before(k: nat, cv: Column, mc: int) -> bool {
    forall|s: int, d: int, j: int|
        0 <= s < cv.len() && 0 <= d < cv[s].len() && 0 <= j < cv[s][d].len()
            ==> #[trigger] is_seed_before(k, cv[s][d][j], mc)
}

/// A path of one symbol is written as the bits of that symbol.
proof fn lemma_encode_single(m: u16, k: nat)
    ensures
        encode(seq![m], k) == with_symbol(Seq::<bool>::empty(), m, k),
        encode(seq![m], k).len() == k,
{
    let p = seq![m];
    assert(p.drop_last() =~= Seq::<u16>::empty());
    assert(p.last() == m);
    assert(encode(p.drop_last(), k) =~= Seq::<bool>::empty());
}

/// The column of the first depth: the single edges that leave state zero on
/// a nonzero input symbol, kept where their distance stays below `max`.
fn seed_column(trellis: &Trellis, k: u16, max: usize) -> (column: Vec<Vec<Vec<BitPath>>>)
    requires
        trellis.wf(),
        trellis.outputs_carry_inputs(),
        1 <= k <= 15,
        max > 0,
        trellis.num_input_symbols <= (1u32 << k),
    ensures
        column_distinct(column.deep_view()),
        column_shape(column.deep_view(), trellis.num_states as int, max as int, k as int),
        column_sound(trellis, k as nat, 1, column.deep_view()),
        column_complete(trellis, k as nat, max as int, 1, column.deep_view()),
{
    let num_states = trellis.num_states;
    let num_inputs = trellis.num_input_symbols;
    let mut column = empty_column(num_states);
    proof {
        let cv = column.deep_view();
        assert(cv.len() == column@.len());
        assert forall|s: int| 0 <= s < cv.len() implies (#[trigger] cv[s]).len() == 0 by {
            assert(cv[s].len() == column@[s]@.len());
        }
    }
    let mut input: usize = 1;
    while input < num_inputs
        invariant
            trellis.wf(),
            trellis.outputs_carry_inputs(),
            num_states == trellis.num_states,
            num_inputs == trellis.num_input_symbols,
            1 <= input,
            1 <= k <= 15,
            max > 0,
            column_shape(column.deep_view(), num_states as int, max as int, k as int),
            column_sound(trellis, k as nat, 1, column.deep_view()),
            seeded_until(trellis, k as nat, max as int, column.deep_view(), input as int),
            trellis.num_input_symbols <= (1u32 << k),
            column_distinct(column.deep_view()),
            seeds_before(k as nat, column.deep_view(), input as int),
        decreases num_inputs - input,
    {
        let ghost c0 = column.deep_view();
        let next_state: usize = *trellis.next_states.index(0, input) as usize;
        proof {
            assert(0 <= trellis.next(0, input as int) < trellis.num_states);
            assert(c0.len() == column@.len());
            assert(c0[next_state as int].len() == column@[next_state as int]@.len());
        }
        if column[next_state].len() == 0 {
            column[next_state] = empty_buckets(max);
        }
        let ghost c1 = column.deep_view();
        let weight: usize = trellis.outputs.index(0, input).count_ones() as usize;
        proof {
            assert(trellis.outputs.entry(0, input as int) != 0);
            lemma_popcount16_bounds(trellis.outputs.entry(0, input as int));
            assert(c1.len() == column@.len());
            assert forall|s2: int| 0 <= s2 < c1.len() implies c1[s2].len() == column@[s2]@.len() by {}
            assert forall|s2: int, d2: int, j2: int|
                0 <= s2 < c1.len() && 0 <= d2 < c1[s2].len() && 0 <= j2 < c1[s2][d2].len() implies 0
                <= s2 < c0.len() && 0 <= d2 < c0[s2].len() && 0 <= j2 < c0[s2][d2].len()
                && #[trigger] c1[s2][d2][j2] == c0[s2][d2][j2] by {
                assert(c1[s2][d2].len() == column@[s2]@[d2]@.len());
                if s2 == next_state && c0[s2].len() == 0 {
                    assert(column@[s2]@[d2]@.len() == 0);
                }
            }
            assert forall|s2: int| 0 <= s2 < c1.len() implies (#[trigger] c1[s2]).len() == 0
                || c1[s2].len() == max by {
                assert(c0[s2].len() == 0 || c0[s2].len() == max);
            }
            assert forall|s2: int, d2: int, j2: int|
                0 <= s2 < c1.len() && 0 <= d2 < c1[s2].len() && 0 <= j2 < c1[s2][d2].len()
                    implies #[trigger] is_path_entry(
                trellis,
                k as nat,
                1,
                s2,
                d2,
                c1[s2][d2][j2],
            ) by {
                assert(c1[s2][d2][j2] == c0[s2][d2][j2]);
                assert(is_path_entry(trellis, k as nat, 1, s2, d2, c0[s2][d2][j2]));
            }
            assert forall|s2: int, d2: int, j2: int|
                0 <= s2 < c1.len() && 0 <= d2 < c1[s2].len() && 0 <= j2 < c1[s2][d2].len()
                    implies (#[trigger] c1[s2][d2][j2]).len() == k by {
                assert(c1[s2][d2][j2] == c0[s2][d2][j2]);
            }
            assert(grows(c0, c1));
            lemma_grows_keeps_seeds(trellis, k as nat, max as int, c0, c1, input as int);
            assert forall|s2: int, d2: int, j2: int|
                0 <= s2 < c1.len() && 0 <= d2 < c1[s2].len() && 0 <= j2 < c1[s2][d2].len()
                    implies #[trigger] is_seed_before(k as nat, c1[s2][d2][j2], input + 1) by {
                assert(c1[s2][d2][j2] == c0[s2][d2][j2]);
                assert(is_seed_before(k as nat, c0[s2][d2][j2], input as int));
                let m = choose|m: u16|
                    1 <= m < input && #[trigger] encode(seq![m], k as nat) == c0[s2][d2][j2];
                assert(1 <= m < input + 1 && encode(seq![m], k as nat) == c1[s2][d2][j2]);
            }
            assert(column_distinct(c1)) by {
                assert forall|s1: int, d1: int, j1: int, s2: int, d2: int, j2: int|
                    #![trigger c1[s1][d1][j1], c1[s2][d2][j2]]
                    0 <= s1 < c1.len() && 0 <= d1 < c1[s1].len() && 0 <= j1 < c1[s1][d1].len()
                        && 0 <= s2 < c1.len() && 0 <= d2 < c1[s2].len() && 0 <= j2
                        < c1[s2][d2].len() && (s1 != s2 || d1 != d2 || j1 != j2)
                        implies c1[s1][d1][j1] != c1[s2][d2][j2] by {
                    assert(c1[s1][d1][j1] == c0[s1][d1][j1]);
                    assert(c1[s2][d2][j2] == c0[s2][d2][j2]);
                }
            }
        }
        if weight - 1 < max {
            let mut path = bv_new();
            push_symbol(&mut path, input as u16, k);
            let ghost old_len = column@[next_state as int]@[weight - 1]@.len();
            let ghost bits = path@;
            column[next_state][weight - 1].push(path);
            proof {
                let c2 = column.deep_view();
                lemma_encode_single(input as u16, k as nat);
                lemma_diverging_seed(trellis, input as u16);
                assert(c2.len() == column@.len());
                assert(c2[next_state as int].len() == column@[next_state as int]@.len());
                assert(c2[next_state as int][weight - 1].len() == column@[next_state as int]@[weight
                    - 1]@.len());
                assert(c2[next_state as int][weight - 1][old_len as int] == bits);
                assert(grows(c1, c2));
                lemma_grows_keeps_seeds(trellis, k as nat, max as int, c1, c2, input as int);
                assert(seed_lands(trellis, k as nat, max as int, c2, input as int));
                assert forall|s2: int| 0 <= s2 < c2.len() implies (#[trigger] c2[s2]).len() == 0
                    || c2[s2].len() == max by {
                    assert(c2[s2].len() == column@[s2]@.len());
                    assert(c1[s2].len() == 0 || c1[s2].len() == max);
                }
                assert forall|s2: int, d2: int, j2: int|
                    0 <= s2 < c2.len() && 0 <= d2 < c2[s2].len() && 0 <= j2 < c2[s2][d2].len()
                        implies #[trigger] is_path_entry(
                    trellis,
                    k as nat,
                    1,
                    s2,
                    d2,
                    c2[s2][d2][j2],
                ) && c2[s2][d2][j2].len() == k by {
                    if s2 == next_state && d2 == weight - 1 && j2 >= old_len {
                        assert(c2[s2][d2][j2] == bits);
                        assert(encode(seq![input as u16], k as nat) == bits);
                    } else {
                        assert(c2[s2][d2][j2] == c1[s2][d2][j2]);
                        assert(is_path_entry(trellis, k as nat, 1, s2, d2, c1[s2][d2][j2]));
                        assert(c1[s2][d2][j2].len() == k);
                    }
                }
                assert forall|s2: int, d2: int, j2: int|
                    0 <= s2 < c2.len() && 0 <= d2 < c2[s2].len() && 0 <= j2 < c2[s2][d2].len()
                        implies (#[trigger] c2[s2][d2][j2]).len() == k by {
                    assert(is_path_entry(trellis, k as nat, 1, s2, d2, c2[s2][d2][j2]));
                }
                assert forall|s2: int, d2: int, j2: int|
                    0 <= s2 < c2.len() && 0 <= d2 < c2[s2].len() && 0 <= j2 < c2[s2][d2].len()
                        implies #[trigger] is_seed_before(k as nat, c2[s2][d2][j2], input + 1) by {
                    if s2 == next_state && d2 == weight - 1 && j2 >= old_len {
                        assert(c2[s2][d2][j2] == bits);
                        assert(encode(seq![input as u16], k as nat) == bits);
                    } else {
                        assert(c2[s2][d2][j2] == c1[s2][d2][j2]);
                        assert(is_seed_before(k as nat, c1[s2][d2][j2], input + 1));
                    }
                }
                assert(column_distinct(c2)) by {
                    assert forall|s1: int, d1: int, j1: int, s2: int, d2: int, j2: int|
                        #![trigger c2[s1][d1][j1], c2[s2][d2][j2]]
                        0 <= s1 < c2.len() && 0 <= d1 < c2[s1].len() && 0 <= j1
                            < c2[s1][d1].len() && 0 <= s2 < c2.len() && 0 <= d2 < c2[s2].len()
                            && 0 <= j2 < c2[s2][d2].len() && (s1 != s2 || d1 != d2 || j1 != j2)
                            implies c2[s1][d1][j1] != c2[s2][d2][j2] by {
                        let new1 = s1 == next_state && d1 == weight - 1 && j1 >= old_len;
                        let new2 = s2 == next_state && d2 == weight - 1 && j2 >= old_len;
                        if !new1 && !new2 {
                            assert(c2[s1][d1][j1] == c1[s1][d1][j1]);
                            assert(c2[s2][d2][j2] == c1[s2][d2][j2]);
                        } else if new1 && new2 {
                            assert(j1 == old_len && j2 == old_len);
                        } else {
                            let other = if new1 {
                                c2[s2][d2][j2]
                            } else {
                                c2[s1][d1][j1]
                            };
                            if new1 {
                                assert(c2[s2][d2][j2] == c1[s2][d2][j2]);
                                assert(is_seed_before(k as nat, c1[s2][d2][j2], input as int));
                            } else {
                                assert(c2[s1][d1][j1] == c1[s1][d1][j1]);
                                assert(is_seed_before(k as nat, c1[s1][d1][j1], input as int));
                            }
                            let m = choose|m: u16|
                                1 <= m < input && #[trigger] encode(seq![m], k as nat) == other;
                            if other == bits {
                                lemma_encode_single(m, k as nat);
                                lemma_concat_injective(
                                    Seq::<bool>::empty(),
                                    symbol_bits(m, k as nat),
                                    Seq::<bool>::empty(),
                                    symbol_bits(input as u16, k as nat),
                                );
                                assert((m as u32) < (1u32 << k) && ((input as u16) as u32) < (1u32
                                    << k));
                                lemma_symbol_bits_injective(m, input as u16, k);
                                assert(false);
                            }
                        }
                    }
                }
            }
        }
        input += 1;
    }
    proof {
        let cv = column.deep_view();
        assert forall|p: Seq<u16>, s: int, d: int|
            p.len() == 1 && 0 <= s < cv.len() && 0 <= d < max && #[trigger] diverging(
                trellis,
                p,
                s,
                d,
            ) implies cv[s].len() == max && cv[s][d].contains(encode(p, k as nat)) by {
            lemma_diverging_single(trellis, p, s, d);
            let m = p[0] as int;
            assert(seed_lands(trellis, k as nat, max as int, cv, m));
        }
    }
    column
}

/// Filling an entry up with zero bits leaves it standing for the same path.
proof fn lemma_padding_keeps_entry(bits: Seq<bool>, length: int, p: Seq<u16>, k: nat, count: int)
    requires
        entry_encodes(bits, length, p, k),
        count >= 0,
    ensures
        entry_encodes(bits + zeros(count), length, p, k),
{
    let padded = bits + zeros(count);
    assert(padded.take(length) =~= bits.take(length));
}

/// What the events of one distance become when the paths `found`, which are
/// exactly the events of `depth` steps, join those of fewer steps: the old
/// entries are filled up to the new length and the new ones follow.
proof fn lemma_record_bucket(
    t: &Trellis,
    k: nat,
    depth: int,
    d: int,
    ev0: Seq<Seq<bool>>,
    lens0: Seq<u32>,
    found: Seq<Seq<bool>>,
    ev1: Seq<Seq<bool>>,
    lens1: Seq<u32>,
    width: int,
)
    requires
        depth >= 1,
        k >= 1,
        width == depth * k,
        forall|i: int, j: int|
            0 <= i < j < found.len() ==> #[trigger] found[i] != #[trigger] found[j],
        is_event_bucket(t, k, depth - 1, d, ev0, lens0),
        forall|j: int| 0 <= j < found.len() ==> #[trigger] is_path_entry(t, k, depth, 0, d, found[j]),
        forall|p: Seq<u16>|
            p.len() == depth && #[trigger] diverging(t, p, 0, d) ==> found.contains(encode(p, k)),
        found.len() == 0 ==> ev1 == ev0 && lens1 == lens0,
        found.len() != 0 ==> {
            &&& ev1.len() == ev0.len() + found.len()
            &&& lens1.len() == ev1.len()
            &&& forall|j: int|
                0 <= j < ev0.len() ==> #[trigger] ev1[j] == ev0[j] + zeros(width - ev0[j].len())
                    && lens1[j] == lens0[j]
            &&& forall|j: int|
                0 <= j < found.len() ==> #[trigger] ev1[ev0.len() + j] == found[j] && lens1[ev0.len()
                    + j] == width
        },
    ensures
        is_event_bucket(t, k, depth, d, ev1, lens1),
{
    assert((depth - 1) * k + k == depth * k) by (nonlinear_arith);
    if found.len() != 0 {
        let last = found.len() - 1;
        assert(ev1[ev0.len() + last] == found[last]);
        assert(lens1.last() == width);
    }
    assert forall|j: int| 0 <= j < ev1.len() implies #[trigger] is_event_entry(
        t,
        k,
        depth,
        d,
        ev1[j],
        lens1[j] as int,
    ) && ev1[j].len() == lens1.last() && lens1[j] <= depth * k by {
        if j < ev0.len() {
            assert(is_event_entry(t, k, depth - 1, d, ev0[j], lens0[j] as int));
            let p = choose|p: Seq<u16>|
                p.len() <= depth - 1 && diverging(t, p, 0, d) && #[trigger] entry_encodes(
                    ev0[j],
                    lens0[j] as int,
                    p,
                    k,
                );
            assert(ev0[j].len() == lens0.last());
            assert(lens0[lens0.len() - 1] <= (depth - 1) * k);
            if found.len() != 0 {
                lemma_padding_keeps_entry(ev0[j], lens0[j] as int, p, k, width - ev0[j].len());
                assert(entry_encodes(ev1[j], lens1[j] as int, p, k));
            } else {
                assert(entry_encodes(ev1[j], lens1[j] as int, p, k));
            }
        } else {
            let i = j - ev0.len();
            assert(ev1[ev0.len() + i] == found[i]);
            assert(is_path_entry(t, k, depth, 0, d, found[i]));
            let p = choose|p: Seq<u16>|
                p.len() == depth && diverging(t, p, 0, d) && #[trigger] encode(p, k) == found[i];
            lemma_encode_len(p, k);
            assert(found[i].take(width) =~= found[i]);
            assert(entry_encodes(ev1[j], lens1[j] as int, p, k));
        }
    }
    assert forall|p: Seq<u16>| p.len() <= depth && #[trigger] diverging(t, p, 0, d) implies has_entry(
        ev1,
        lens1,
        p,
        k,
    ) by {
        if p.len() <= depth - 1 {
            assert(has_entry(ev0, lens0, p, k));
            let j = choose|j: int|
                0 <= j < ev0.len() && #[trigger] entry_encodes(ev0[j], lens0[j] as int, p, k);
            if found.len() != 0 {
                lemma_padding_keeps_entry(ev0[j], lens0[j] as int, p, k, width - ev0[j].len());
                assert(ev0[j].len() == lens0.last());
                assert(lens0[lens0.len() - 1] <= (depth - 1) * k);
            }
            assert(entry_encodes(ev1[j], lens1[j] as int, p, k));
        } else {
            assert(found.contains(encode(p, k)));
            let i = choose|i: int| 0 <= i < found.len() && found[i] == encode(p, k);
            lemma_encode_len(p, k);
            assert(ev1[ev0.len() + i] == found[i]);
            assert(found[i].take(width) =~= found[i]);
            assert(entry_encodes(ev1[ev0.len() + i], lens1[ev0.len() + i] as int, p, k));
        }
    }
    assert forall|j: int| 0 <= j < ev1.len() implies (#[trigger] ev1[j]).len() == lens1.last() by {
        assert(is_event_entry(t, k, depth, d, ev1[j], lens1[j] as int));
    }
    assert((depth - 1) * k < depth * k) by (nonlinear_arith)
        requires
            k >= 1,
    ;
    assert forall|i: int, j: int| 0 <= i < j < ev1.len() implies #[trigger] lengths_or_bits_differ(
        ev1,
        lens1,
        i,
        j,
    ) by {
        if found.len() == 0 {
            assert(lengths_or_bits_differ(ev0, lens0, i, j));
        } else if j < ev0.len() {
            assert(ev1[i] == ev0[i] + zeros(width - ev0[i].len()));
            assert(ev1[j] == ev0[j] + zeros(width - ev0[j].len()));
            assert(is_event_entry(t, k, depth - 1, d, ev0[i], lens0[i] as int));
            assert(is_event_entry(t, k, depth - 1, d, ev0[j], lens0[j] as int));
            assert(ev1[i].take(lens0[i] as int) =~= ev0[i].take(lens0[i] as int));
            assert(ev1[j].take(lens0[j] as int) =~= ev0[j].take(lens0[j] as int));
            assert(lengths_or_bits_differ(ev0, lens0, i, j));
        } else if i < ev0.len() {
            assert(ev1[ev0.len() + (j - ev0.len())] == found[j - ev0.len()]);
            assert(ev1[i] == ev0[i] + zeros(width - ev0[i].len()));
            assert(lens0[i] <= (depth - 1) * k);
        } else {
            let a = i - ev0.len();
            let b = j - ev0.len();
            assert(ev1[ev0.len() + a] == found[a]);
            assert(ev1[ev0.len() + b] == found[b]);
            assert(found[a] != found[b]);
            assert(is_event_entry(t, k, depth, d, ev1[i], lens1[i] as int));
            assert(is_event_entry(t, k, depth, d, ev1[j], lens1[j] as int));
            assert(ev1[i].len() == width && ev1[j].len() == width);
            assert(ev1[i].take(width) =~= ev1[i]);
            assert(ev1[j].take(width) =~= ev1[j]);
        }
    }
    assert forall|j: int| 0 <= j < lens1.len() implies #[trigger] lens1[j] <= depth * k by {
        assert(is_event_entry(t, k, depth, d, ev1[j], lens1[j] as int));
    }
    assert forall|i: int, j: int| 0 <= i <= j < lens1.len() implies #[trigger] lens1[i]
        <= #[trigger] lens1[j] by {
        if found.len() != 0 {
            if j < ev0.len() {
                assert(ev1[i] == ev0[i] + zeros(width - ev0[i].len()));
                assert(ev1[j] == ev0[j] + zeros(width - ev0[j].len()));
                assert(lens0[i] <= lens0[j]);
            } else {
                assert(ev1[ev0.len() + (j - ev0.len())] == found[j - ev0.len()]);
                if i < ev0.len() {
                    assert(ev1[i] == ev0[i] + zeros(width - ev0[i].len()));
                    assert(lens0[i] <= (depth - 1) * k);
                } else {
                    assert(ev1[ev0.len() + (i - ev0.len())] == found[i - ev0.len()]);
                }
            }
        }
    }
}

/// Joins the paths `found`, all of `width` bits, to the events of their
/// distance: the events already there are filled up with zero bits to
/// `width` bits, copies of the new ones follow, and each new one gets `width`
/// as its length. Nothing changes where `found` is empty.
fn record_bucket(
    events: &mut Vec<BitPath>,
    lengths: &mut Vec<u32>,
    found: &Vec<BitPath>,
    width: usize,
)
    requires
        width <= max_bits(),
        width <= u32::MAX,
        forall|j: int| 0 <= j < old(events)@.len() ==> (#[trigger] old(events)@[j])@.len() <= width,
    ensures
        found@.len() == 0 ==> final(events)@ == old(events)@ && final(lengths)@ == old(lengths)@,
        found@.len() != 0 ==> {
            &&& final(events)@.len() == old(events)@.len() + found@.len()
            &&& final(lengths)@.len() == old(lengths)@.len() + found@.len()
            &&& forall|j: int|
                0 <= j < old(events)@.len() ==> (#[trigger] final(events)@[j])@ == old(events)@[j]@
                    + zeros(width - old(events)@[j]@.len())
            &&& forall|j: int|
                0 <= j < old(lengths)@.len() ==> #[trigger] final(lengths)@[j] == old(lengths)@[j]
            &&& forall|j: int|
                0 <= j < found@.len() ==> (#[trigger] final(events)@[old(events)@.len() + j])@
                    == found@[j]@
            &&& forall|j: int|
                0 <= j < found@.len() ==> #[trigger] final(lengths)@[old(lengths)@.len() + j]
                    == width
        },
{
    if found.len() == 0 {
        return ;
    }
    let ghost ev0 = events@;
    let ghost lens0 = lengths@;
    let mut n: usize = 0;
    while n < events.len()
        invariant
            n <= events@.len(),
            events@.len() == ev0.len(),
            width <= max_bits(),
            forall|j: int| 0 <= j < ev0.len() ==> (#[trigger] ev0[j])@.len() <= width,
            forall|j: int|
                0 <= j < n ==> (#[trigger] events@[j])@ == ev0[j]@ + zeros(width - ev0[j]@.len()),
            forall|j: int| n <= j < ev0.len() ==> #[trigger] events@[j] == ev0[j],
        decreases events@.len() - n,
    {
        let length = bv_len(&events[n]);
        bv_extend_zeros(&mut events[n], width - length);
        n += 1;
    }
    let mut n: usize = 0;
    while n < found.len()
        invariant
            n <= found@.len(),
            width <= u32::MAX,
            events@.len() == ev0.len() + n,
            lengths@.len() == lens0.len() + n,
            forall|j: int|
                0 <= j < ev0.len() ==> (#[trigger] events@[j])@ == ev0[j]@ + zeros(
                    width - ev0[j]@.len(),
                ),
            forall|j: int| 0 <= j < lens0.len() ==> #[trigger] lengths@[j] == lens0[j],
            forall|j: int| 0 <= j < n ==> (#[trigger] events@[ev0.len() + j])@ == found@[j]@,
            forall|j: int| 0 <= j < n ==> #[trigger] lengths@[lens0.len() + j] == width,
        decreases found@.len() - n,
    {
        events.push(bv_clone(&found[n]));
        lengths.push(width as u32);
        n += 1;
    }
}

/// Joins the paths of `column` that are back in state zero, all of `depth`
/// steps, to the events found at smaller depths.
fn record_events(
    trellis: &Trellis,
    k: u16,
    max: usize,
    depth: usize,
    column: &Vec<Vec<Vec<BitPath>>>,
    error_events: &mut Vec<Vec<BitPath>>,
    error_event_lengths: &mut Vec<Vec<u32>>,
)
    requires
        trellis.wf(),
        1 <= k <= 15,
        max > 0,
        1 <= depth <= 0x100_0000,
        column_shape(column.deep_view(), trellis.num_states as int, max as int, k * depth),
        column_sound(trellis, k as nat, depth as int, column.deep_view()),
        column_complete(trellis, k as nat, max as int, depth as int, column.deep_view()),
        column_distinct(column.deep_view()),
        is_error_events(
            trellis,
            k as nat,
            max as int,
            depth - 1,
            old(error_events).deep_view(),
            old(error_event_lengths).deep_view(),
        ),
    ensures
        is_error_events(
            trellis,
            k as nat,
            max as int,
            depth as int,
            final(error_events).deep_view(),
            final(error_event_lengths).deep_view(),
        ),
{
    let ghost cv = column.deep_view();
    let ghost ev0 = error_events.deep_view();
    let ghost lens0 = error_event_lengths.deep_view();
    assert(k * depth <= 15 * 0x100_0000) by (nonlinear_arith)
        requires
            k <= 15,
            depth <= 0x100_0000,
    ;
    assert(max_bits() >= 0x1fff_ffff);
    let width: usize = (k as usize) * depth;
    proof {
        assert(k * depth == depth * k) by (nonlinear_arith);
        assert(cv.len() == column@.len());
        assert(cv[0].len() == column@[0]@.len());
        assert(ev0.len() == error_events@.len());
        assert(lens0.len() == error_event_lengths@.len());
    }
    let allocated: bool = column[0].len() != 0;
    let nothing: Vec<BitPath> = Vec::new();
    let mut d: usize = 0;
    while d < max
        invariant
            trellis.wf(),
            d <= max,
            1 <= k <= 15,
            1 <= depth,
            width == k * depth,
            width == depth * k,
            width <= 15 * 0x100_0000,
            max_bits() >= 0x1fff_ffff,
            cv == column.deep_view(),
            allocated == (column@[0]@.len() != 0),
            nothing@.len() == 0,
            column@.len() == trellis.num_states,
            column_shape(cv, trellis.num_states as int, max as int, k * depth),
            column_sound(trellis, k as nat, depth as int, cv),
            column_complete(trellis, k as nat, max as int, depth as int, cv),
            column_distinct(cv),
            error_events@.len() == max,
            error_event_lengths@.len() == max,
            forall|e: int|
                0 <= e < d ==> #[trigger] is_event_bucket(
                    trellis,
                    k as nat,
                    depth as int,
                    e,
                    error_events.deep_view()[e],
                    error_event_lengths.deep_view()[e],
                ),
            forall|e: int|
                d <= e < max ==> #[trigger] is_event_bucket(
                    trellis,
                    k as nat,
                    depth - 1,
                    e,
                    error_events.deep_view()[e],
                    error_event_lengths.deep_view()[e],
                ),
        decreases max - d,
    {
        let ghost evs_before = error_events.deep_view();
        let ghost lens_before = error_event_lengths.deep_view();
        let ghost b0 = error_events@[d as int].deep_view();
        let ghost l0 = error_event_lengths@[d as int].deep_view();
        proof {
            assert(cv[0].len() == column@[0]@.len());
            assert(evs_before[d as int] == b0);
            assert(lens_before[d as int] == l0);
            assert(is_event_bucket(trellis, k as nat, depth - 1, d as int, b0, l0));
            assert((depth - 1) * k <= depth * k) by (nonlinear_arith)
                requires
                    k >= 0,
            ;
            assert forall|j: int| 0 <= j < error_events@[d as int]@.len() implies (
            #[trigger] error_events@[d as int]@[j])@.len() <= width by {
                assert(b0[j] == error_events@[d as int]@[j]@);
                assert(b0[j].len() == l0.last());
                assert(l0[l0.len() - 1] <= (depth - 1) * k);
            }
        }
        let found: &Vec<BitPath> = if allocated {
            &column[0][d]
        } else {
            &nothing
        };
        let ghost fv = found.deep_view();
        record_bucket(&mut error_events[d], &mut error_event_lengths[d], found, width);
        proof {
            let b1 = error_events@[d as int].deep_view();
            let l1 = error_event_lengths@[d as int].deep_view();
            if allocated {
                assert(cv[0][d as int] == fv);
            }
            assert forall|j: int| 0 <= j < fv.len() implies #[trigger] is_path_entry(
                trellis,
                k as nat,
                depth as int,
                0,
                d as int,
                fv[j],
            ) by {
                assert(fv[j] == cv[0][d as int][j]);
            }
            assert forall|p: Seq<u16>|
                p.len() == depth && #[trigger] diverging(trellis, p, 0, d as int) implies fv.contains(
                encode(p, k as nat),
            ) by {
                assert(cv[0].len() == max && cv[0][d as int].contains(encode(p, k as nat)));
            }
            if fv.len() == 0 {
                assert(b1 =~= b0);
                assert(l1 =~= l0);
            } else {
                assert(b1.len() == b0.len() + fv.len());
                assert(l1.len() == b1.len());
                assert forall|j: int| 0 <= j < b0.len() implies #[trigger] b1[j] == b0[j] + zeros(
                    width - b0[j].len(),
                ) && l1[j] == l0[j] by {
                    assert(b1[j] == error_events@[d as int]@[j]@);
                }
                assert forall|j: int| 0 <= j < fv.len() implies #[trigger] b1[b0.len() + j] == fv[j]
                    && l1[b0.len() + j] == width by {
                    assert(b1[b0.len() + j] == error_events@[d as int]@[b0.len() + j]@);
                    assert(l1[b0.len() + j] == error_event_lengths@[d as int]@[l0.len() + j]);
                }
            }
            assert forall|i: int, j: int| 0 <= i < j < fv.len() implies #[trigger] fv[i]
                != #[trigger] fv[j] by {
                assert(fv[i] == cv[0][d as int][i]);
                assert(fv[j] == cv[0][d as int][j]);
            }
            lemma_record_bucket(
                trellis,
                k as nat,
                depth as int,
                d as int,
                b0,
                l0,
                fv,
                b1,
                l1,
                width as int,
            );
            let evs_after = error_events.deep_view();
            let lens_after = error_event_lengths.deep_view();
            assert(evs_after[d as int] == b1);
            assert(lens_after[d as int] == l1);
            assert forall|e: int| 0 <= e < max && e != d implies #[trigger] evs_after[e]
                == evs_before[e] && #[trigger] lens_after[e] == lens_before[e] by {
            }
            assert forall|e: int| 0 <= e < d + 1 implies #[trigger] is_event_bucket(
                trellis,
                k as nat,
                depth as int,
                e,
                evs_after[e],
                lens_after[e],
            ) by {
                if e != d {
                    assert(evs_after[e] == evs_before[e] && lens_after[e] == lens_before[e]);
                    assert(is_event_bucket(
                        trellis,
                        k as nat,
                        depth as int,
                        e,
                        evs_before[e],
                        lens_before[e],
                    ));
                }
            }
            assert forall|e: int| d + 1 <= e < max implies #[trigger] is_event_bucket(
                trellis,
                k as nat,
                depth - 1,
                e,
                evs_after[e],
                lens_after[e],
            ) by {
                assert(evs_after[e] == evs_before[e] && lens_after[e] == lens_before[e]);
                assert(is_event_bucket(
                    trellis,
                    k as nat,
                    depth - 1,
                    e,
                    evs_before[e],
                    lens_before[e],
                ));
            }
        }
        d += 1;
    }
}

/// The depth to which [`find_irreducible_error_event`] searches.
pub const MAX_ITERATION: usize = 200;

/// `max` empty lists of lengths.
fn empty_lengths(max: usize) -> (lengths: Vec<Vec<u32>>)
    ensures
        lengths@.len() == max,
        forall|d: int| 0 <= d < max ==> (#[trigger] lengths@[d])@.len() == 0,
{
    let mut lengths: Vec<Vec<u32>> = Vec::new();
    let mut d: usize = 0;
    while d < max
        invariant
            d <= max,
            lengths@.len() == d,
            forall|e: int| 0 <= e < d ==> (#[trigger] lengths@[e])@.len() == 0,
        decreases max - d,
    {
        lengths.push(Vec::new());
        d += 1;
    }
    lengths
}

/// Searches the trellis to the depth `max_iteration` for the irreducible
/// error events whose distance index is below `max_search_distance`: the
/// paths that leave state zero on a nonzero symbol and are back in it for
/// the first time at their end, an event of output weight `w` standing at
/// the index `w - 1`. Input symbols are written with `k` bits each.
pub fn irreducible_error_events(
    trellis: &Trellis,
    k: u16,
    max_search_distance: usize,
    max_iteration: usize,
) -> (found: ErrorEvents)
    requires
        trellis.wf(),
        trellis.outputs_carry_inputs(),
        1 <= k <= 15,
        trellis.num_input_symbols <= pow2(k as nat),
        max_iteration <= 0x100_0000,
    ensures
        is_error_events(
            trellis,
            k as nat,
            max_search_distance as int,
            max_iteration as int,
            found.error_events.deep_view(),
            found.error_event_lengths.deep_view(),
        ),
{
    let max = max_search_distance;
    let mut error_events: Vec<Vec<BitPath>> = empty_buckets(max);
    let mut error_event_lengths: Vec<Vec<u32>> = empty_lengths(max);
    proof {
        let ev = error_events.deep_view();
        let lens = error_event_lengths.deep_view();
        assert forall|d: int| 0 <= d < max implies #[trigger] is_event_bucket(
            trellis,
            k as nat,
            0,
            d,
            ev[d],
            lens[d],
        ) by {
            assert(ev[d].len() == error_events@[d]@.len());
            assert(lens[d].len() == error_event_lengths@[d]@.len());
        }
    }
    if max == 0 || max_iteration == 0 {
        return ErrorEvents { error_events, error_event_lengths };
    }
    proof {
        vstd::bits::lemma_u32_pow2_no_overflow(k as nat);
        vstd::bits::lemma_u32_shl_is_mul(1u32, k as u32);
        assert(1u32 << (k as u32) == 1u32 << k) by (bit_vector)
            requires
                k <= 15,
        ;
    }
    let mut column = seed_column(trellis, k, max);
    let mut depth: usize = 1;
    assert(max_bits() >= 0x1fff_ffff);
    while depth <= max_iteration
        invariant
            trellis.wf(),
            trellis.outputs_carry_inputs(),
            1 <= k <= 15,
            max > 0,
            max == max_search_distance,
            1 <= depth <= max_iteration + 1,
            max_iteration <= 0x100_0000,
            max_bits() >= 0x1fff_ffff,
            trellis.num_input_symbols <= (1u32 << k),
            depth <= max_iteration ==> column_distinct(column.deep_view()),
            depth <= max_iteration ==> {
                &&& column_shape(
                    column.deep_view(),
                    trellis.num_states as int,
                    max as int,
                    k * depth,
                )
                &&& column_sound(trellis, k as nat, depth as int, column.deep_view())
                &&& column_complete(trellis, k as nat, max as int, depth as int, column.deep_view())
            },
            is_error_events(
                trellis,
                k as nat,
                max as int,
                depth - 1,
                error_events.deep_view(),
                error_event_lengths.deep_view(),
            ),
        decreases max_iteration + 1 - depth,
    {
        record_events(
            trellis,
            k,
            max,
            depth,
            &column,
            &mut error_events,
            &mut error_event_lengths,
        );
        if depth < max_iteration {
            proof {
                assert(k * depth <= 15 * 0x100_0000) by (nonlinear_arith)
                    requires
                        k <= 15,
                        depth <= 0x100_0000,
                ;
                assert(k * (depth + 1) == k * depth + k) by (nonlinear_arith);
            }
            let next = extend_column(trellis, k, max, &column, Ghost(k * depth));
            proof {
                let pv = column.deep_view();
                lemma_column_step(
                    trellis,
                    k as nat,
                    max as int,
                    depth as int,
                    pv,
                    next.deep_view(),
                );
            }
            column = next;
        }
        depth += 1;
    }
    ErrorEvents { error_events, error_event_lengths }
}

/// Searches the trellis of an encoder with the given numerators, to the depth
/// [`MAX_ITERATION`], for the irreducible error events whose distance index
/// is below `max_search_distance`. The constraint length and the denominator
/// have no part in the search: the trellis holds what they led to.
pub fn find_irreducible_error_event(
    _v: u16,
    numerators: &[u16],
    _denominator: u16,
    max_search_distance: usize,
    trellis: &Trellis,
) -> (found: ErrorEvents)
    requires
        trellis.wf(),
        trellis.outputs_carry_inputs(),
        1 <= numerators@.len() <= 15,
        trellis.num_input_symbols <= pow2(numerators@.len()),
    ensures
        is_error_events(
            trellis,
            numerators@.len(),
            max_search_distance as int,
            MAX_ITERATION as int,
            found.error_events.deep_view(),
            found.error_event_lengths.deep_view(),
        ),
{
    let k: u16 = numerators.len() as u16;
    irreducible_error_events(trellis, k, max_search_distance, MAX_ITERATION)
}

/// Appending a symbol adds `k` bits.
proof fn lemma_with_symbol_len(bits: Seq<bool>, m: u16, k: nat)
    ensures
        with_symbol(bits, m, k).len() == bits.len() + k,
{
}

} // verus!
