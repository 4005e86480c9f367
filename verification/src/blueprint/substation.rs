//! Substations that power the display, placed on a regular grid wherever
//! something asked for power.
use crate::blueprint::constants::{SUBSTATION, WIRE_C};
use crate::blueprint::models::{Entity, Position, Quality, Wire};
use crate::blueprint::sort::{pair_order, sort_pairs};
use crate::blueprint::text::{half_display, half_string};
use vstd::prelude::*;

verus! {

/// Largest coordinate (in half tiles) that positions may have: the range in
/// which every half-tile position is an exact floating-point number.
pub const POS_LIMIT: i64 = 9007199254740992;

/// Both coordinates within `POS_LIMIT`.
pub open spec fn pos_in_range(p: Position) -> bool {
    -POS_LIMIT <= p.x2 <= POS_LIMIT && -POS_LIMIT <= p.y2 <= POS_LIMIT
}

/// Spacing of the substation grid in tiles, by quality; 0 when no
/// substations are placed.
pub open spec fn spec_coverage(q: Option<Quality>) -> int {
    match q {
        Some(Quality::Normal) => 18,
        Some(Quality::Uncommon) => 20,
        Some(Quality::Rare) => 22,
        Some(Quality::Epic) => 24,
        Some(Quality::Legendary) => 28,
        _ => 0,
    }
}

/// `a / d` rounded to the nearest integer, halves away from zero.
pub open spec fn round_div(a: int, d: int) -> int {
    if a >= 0 { (2 * a + d) / (2 * d) } else { -((-2 * a + d) / (2 * d)) }
}

/// The grid point nearest to `p` (relative to the grid origin), on a grid of
/// `cov` tiles.
pub open spec fn spec_center(p: Position, cov: int) -> Position {
    Position {
        x2: (2 * cov * round_div(p.x2 as int, 2 * cov)) as i64,
        y2: (2 * cov * round_div(p.y2 as int, 2 * cov)) as i64,
    }
}

/// `p` relative to `origin`.
pub open spec fn spec_rel(p: Position, origin: Position) -> Position {
    Position { x2: (p.x2 - origin.x2) as i64, y2: (p.y2 - origin.y2) as i64 }
}

/// `p` moved by `offset`.
pub open spec fn spec_add(p: Position, offset: Position) -> Position {
    Position { x2: (p.x2 + offset.x2) as i64, y2: (p.y2 + offset.y2) as i64 }
}

/// Whether a point is at least one tile away from the substation nearest to
/// it, along x or along y.
pub open spec fn spec_is_free(rel: Position, center: Position) -> bool {
    (rel.x2 - center.x2 >= 2 || center.x2 - rel.x2 >= 2) || (rel.y2 - center.y2 >= 2
        || center.y2 - rel.y2 >= 2)
}

/// A grid point (relative to the grid origin) within range.
pub open spec fn req_in_range(p: Position) -> bool {
    -4 * POS_LIMIT <= p.x2 <= 4 * POS_LIMIT && -4 * POS_LIMIT <= p.y2 <= 4 * POS_LIMIT
}

/// The grid points asked for after asking about each of `points` in turn.
pub open spec fn after_requests(reqs: Seq<Position>, points: Seq<Position>, start: Position, cov: int)
    -> Seq<Position>
    decreases points.len(),
{
    if points.len() == 0 {
        reqs
    } else {
        let before = after_requests(reqs, points.drop_last(), start, cov);
        if cov == 0 {
            before
        } else {
            let c = spec_center(spec_rel(points.last(), start), cov);
            if before.contains(c) {
                before
            } else {
                before.push(c)
            }
        }
    }
}

/// Tracks cells occupied by substations.
pub struct SubstationOccupied {
    pub start_pos: Position,
    quality: Option<Quality>,
    requests: Vec<Position>,
}

impl SubstationOccupied {
    /// The origin of the substation grid.
    pub closed spec fn spec_start(&self) -> Position {
        self.start_pos
    }

    /// The quality of the substations.
    pub closed spec fn spec_quality(&self) -> Option<Quality> {
        self.quality
    }

    /// The grid points (relative to `start_pos`) that need a substation, in
    /// the order they were first asked for.
    pub closed spec fn spec_requests(&self) -> Seq<Position> {
        self.requests@
    }

    /// Start and grid points within range.
    pub closed spec fn wf(&self) -> bool {
        &&& pos_in_range(self.start_pos)
        &&& forall|i: int|
            0 <= i < self.requests@.len() ==> req_in_range(#[trigger] self.requests@[i])
    }

    /// A well-formed tracker's origin is within range.
    pub proof fn lemma_start_in_range(&self)
        requires
            self.wf(),
        ensures
            pos_in_range(self.spec_start()),
    {
    }

    pub fn new(start_pos: Position, quality: Option<Quality>) -> (s: Self)
        requires
            pos_in_range(start_pos),
        ensures
            s.wf(),
            s.spec_start() == start_pos,
            s.spec_quality() == quality,
            s.spec_requests() == Seq::<Position>::empty(),
    {
        Self { start_pos, requests: Vec::new(), quality }
    }

    /// Number of grid points asked for so far.
    pub fn n_requests(&self) -> (n: usize)
        ensures
            n == self.spec_requests().len(),
    {
        self.requests.len()
    }

    /// Spacing of the substation grid in tiles (0: no substations).
    pub fn coverage(&self) -> (c: u32)
        ensures
            c == spec_coverage(self.spec_quality()),
    {
        match self.quality {
            Some(Quality::Normal) => 18,
            Some(Quality::Uncommon) => 20,
            Some(Quality::Rare) => 22,
            Some(Quality::Epic) => 24,
            Some(Quality::Legendary) => 28,
            _ => 0,
        }
    }

    /// Requests for a substation to be placed to power the given point.
    ///
    /// # Returns
    ///
    /// A `bool` indicating whether the substation would NOT occupy the given point.
    pub fn request(&mut self, point: Position) -> (free: bool)
        requires
            old(self).wf(),
            pos_in_range(point),
        ensures
            final(self).wf(),
            final(self).spec_start() == old(self).spec_start(),
            final(self).spec_quality() == old(self).spec_quality(),
            spec_coverage(old(self).spec_quality()) == 0 ==> free && final(self).spec_requests()
                == old(self).spec_requests(),
            spec_coverage(old(self).spec_quality()) != 0 ==> ({
                let rel = spec_rel(point, old(self).spec_start());
                let c = spec_center(rel, spec_coverage(old(self).spec_quality()));
                &&& free == spec_is_free(rel, c)
                &&& final(self).spec_requests() == if old(self).spec_requests().contains(c) {
                    old(self).spec_requests()
                } else {
                    old(self).spec_requests().push(c)
                }
            }),
    {
        let cov = self.coverage();
        if cov == 0 {
            return true;
        }
        let px = point.x2 - self.start_pos.x2;
        let py = point.y2 - self.start_pos.y2;
        let d: i64 = 2 * (cov as i64);
        let cx = d * round_div_exec(px, d);
        let cy = d * round_div_exec(py, d);
        let center = Position { x2: cx, y2: cy };

        let mut found = false;
        let mut i: usize = 0;
        while i < self.requests.len()
            invariant
                0 <= i <= self.requests@.len(),
                found == exists|j: int| 0 <= j < i && self.requests@[j] == center,
            decreases self.requests@.len() - i,
        {
            if self.requests[i] == center {
                found = true;
            }
            i += 1;
        }
        if !found {
            self.requests.push(center);
        }
        (px - cx >= 2 || cx - px >= 2) || (py - cy >= 2 || cy - py >= 2)
    }
}

/// `a / d` rounded, halves away from zero, times nothing: the quotient, kept
/// small enough that `d` times it fits.
fn round_div_exec(a: i64, d: i64) -> (q: i64)
    requires
        -2 * POS_LIMIT <= a <= 2 * POS_LIMIT,
        36 <= d <= 56,
    ensures
        q == round_div(a as int, d as int),
        d * q <= 2 * POS_LIMIT + d,
        -2 * POS_LIMIT - d <= d * q,
{
    proof {
        lemma_round_div_bounds(a as int, d as int);
    }
    if a >= 0 { (2 * a + d) / (2 * d) } else { -((-2 * a + d) / (2 * d)) }
}

/// The grid point nearest to a coordinate is within half a grid step of it.
pub proof fn lemma_round_div_bounds(a: int, d: int)
    requires
        -2 * POS_LIMIT <= a <= 2 * POS_LIMIT,
        36 <= d <= 56,
    ensures
        d * round_div(a, d) <= 2 * POS_LIMIT + d,
        -2 * POS_LIMIT - d <= d * round_div(a, d),
{
    let q = round_div(a, d);
    if a >= 0 {
        assert(2 * (d * q) <= 2 * a + d) by (nonlinear_arith)
            requires
                q == (2 * a + d) / (2 * d),
                d > 0,
                a >= 0,
        ;
        assert(d * q >= 0) by (nonlinear_arith)
            requires
                q == (2 * a + d) / (2 * d),
                d > 0,
                a >= 0,
        ;
    } else {
        let q0 = (-2 * a + d) / (2 * d);
        assert(2 * (d * q0) <= -2 * a + d) by (nonlinear_arith)
            requires
                q0 == (-2 * a + d) / (2 * d),
                d > 0,
                a < 0,
        ;
        assert(d * q0 >= 0) by (nonlinear_arith)
            requires
                q0 == (-2 * a + d) / (2 * d),
                d > 0,
                a < 0,
        ;
        assert(d * q == -(d * q0)) by (nonlinear_arith)
            requires
                q == -q0,
        ;
    }
}

/// The tag of the substation at `p`: `sub-(x,y)`.
pub open spec fn spec_sub_tag(p: Position) -> Seq<char> {
    seq!['s', 'u', 'b', '-', '('] + half_display(p.x2 as int) + seq![','] + half_display(
        p.y2 as int,
    ) + seq![')']
}

/// Index of the first occurrence of `p` in `ps`, if there is one.
pub open spec fn first_index(ps: Seq<Position>, p: Position) -> Option<int>
    decreases ps.len(),
{
    if ps.len() == 0 {
        None
    } else if ps[0] == p {
        Some(0)
    } else {
        match first_index(ps.drop_first(), p) {
            Some(i) => Some(i + 1),
            None => None,
        }
    }
}

/// The copper wires that join substation `k` to the ones already placed to
/// its left and above it. Each lookup finds the first substation at the
/// place it looks for.
pub open spec fn sub_wires_at(ps: Seq<Position>, k: int, base: int, cov: int) -> Seq<Wire> {
    let pos = ps[k];
    let seen = ps.take(k + 1);
    let me = (base + first_index(seen, pos).unwrap()) as u32;
    let left = Position { x2: (pos.x2 - 2 * cov) as i64, y2: pos.y2 };
    let up = Position { x2: pos.x2, y2: (pos.y2 - 2 * cov) as i64 };
    let lw = match first_index(seen, left) {
        Some(j) => seq![[(base + j) as u32, WIRE_C, me, WIRE_C], [me, WIRE_C, me, WIRE_C]],
        None => Seq::<Wire>::empty(),
    };
    let uw = match first_index(seen, up) {
        Some(j) => seq![[me, WIRE_C, me, WIRE_C], [(base + j) as u32, WIRE_C, me, WIRE_C]],
        None => Seq::<Wire>::empty(),
    };
    lw + uw
}

/// The wires of the first `n` substations.
pub open spec fn sub_wires(ps: Seq<Position>, n: int, base: int, cov: int) -> Seq<Wire>
    decreases n,
{
    if n <= 0 {
        Seq::empty()
    } else {
        sub_wires(ps, n - 1, base, cov) + sub_wires_at(ps, n - 1, base, cov)
    }
}

/// Substation `k`: number `base + k`, at `pos`, of quality `q`, tagged by
/// its place.
pub open spec fn is_substation(e: Entity, n: int, pos: Position, q: Option<Quality>) -> bool {
    &&& e.entity_number == n
    &&& e.name@ == SUBSTATION@
    &&& e.position == pos
    &&& e.direction is None
    &&& e.control_behavior is None
    &&& e.player_description is None
    &&& e.quality == q
    &&& e.always_on is None
    &&& e.custom_tag matches Some(t) && t@ == spec_sub_tag(pos)
    &&& e.color is None
}

/// Grid points as pairs, for sorting.
pub open spec fn as_pairs(ps: Seq<Position>) -> Seq<(i64, i64)> {
    ps.map_values(|p: Position| (p.x2, p.y2))
}

fn first_index_exec(ents: &Vec<Entity>, p: Position, Ghost(ps): Ghost<Seq<Position>>) -> (r: Option<
    usize,
>)
    requires
        ents@.len() == ps.len(),
        forall|i: int| 0 <= i < ps.len() ==> (#[trigger] ents@[i]).position == ps[i],
    ensures
        match first_index(ps, p) {
            Some(j) => r == Some(j as usize),
            None => r is None,
        },
{
    let mut i: usize = 0;
    assert(ps.skip(0) =~= ps);
    while i < ents.len()
        invariant
            0 <= i <= ents@.len(),
            ents@.len() == ps.len(),
            forall|k: int| 0 <= k < ps.len() ==> (#[trigger] ents@[k]).position == ps[k],
            first_index(ps, p) == (match first_index(ps.skip(i as int), p) {
                Some(j) => Some(j + i),
                None => None,
            }),
        decreases ents@.len() - i,
    {
        proof {
            lemma_first_index_skip(ps, p, i as int);
        }
        if ents[i].position == p {
            return Some(i);
        }
        i += 1;
    }
    None
}

/// Generates substation entities and wires for powering the blueprint.
///
/// The grid points are put in order of x, then y; one substation stands at
/// each, joined by copper wire to its neighbours on the left and above.
///
/// # Returns
///
/// A tuple with substation entities, their wires, and the next entity number.
pub fn generate_substations(occupied: &mut SubstationOccupied, base_ent_n: u32) -> (r: (
    Vec<Entity>,
    Vec<Wire>,
    u32,
))
    requires
        old(occupied).wf(),
        base_ent_n + old(occupied).spec_requests().len() <= u32::MAX,
    ensures
        final(occupied).wf(),
        final(occupied).spec_start() == old(occupied).spec_start(),
        final(occupied).spec_quality() == old(occupied).spec_quality(),
        spec_coverage(old(occupied).spec_quality()) == 0 ==> r.0@.len() == 0 && r.1@.len() == 0
            && r.2 == base_ent_n && final(occupied).spec_requests() == old(
            occupied,
        ).spec_requests(),
        spec_coverage(old(occupied).spec_quality()) != 0 ==> ({
            let sorted = final(occupied).spec_requests();
            let ps = sorted.map_values(
                |p: Position| spec_add(p, old(occupied).spec_start()),
            );
            &&& as_pairs(sorted) == as_pairs(old(occupied).spec_requests()).sort_by(pair_order())
            &&& r.0@.len() == sorted.len()
            &&& forall|k: int|
                0 <= k < sorted.len() ==> is_substation(
                    #[trigger] r.0@[k],
                    base_ent_n + k,
                    ps[k],
                    old(occupied).spec_quality(),
                )
            &&& r.1@ == sub_wires(
                ps,
                sorted.len() as int,
                base_ent_n as int,
                spec_coverage(old(occupied).spec_quality()),
            )
            &&& r.2 == base_ent_n + sorted.len()
        }),
{
    let mut subs: Vec<Entity> = Vec::new();
    let mut wires: Vec<Wire> = Vec::new();
    let cov = occupied.coverage();
    if cov == 0 {
        return (subs, wires, base_ent_n);
    }
    // Order by x, then by y.
    let mut pairs: Vec<(i64, i64)> = Vec::new();
    let mut i: usize = 0;
    while i < occupied.requests.len()
        invariant
            0 <= i <= occupied.requests@.len(),
            pairs@ == as_pairs(occupied.requests@.take(i as int)),
        decreases occupied.requests@.len() - i,
    {
        let p = occupied.requests[i];
        pairs.push((p.x2, p.y2));
        proof {
            assert(occupied.requests@.take(i + 1) =~= occupied.requests@.take(i as int).push(p));
            assert(pairs@ =~= as_pairs(occupied.requests@.take(i + 1)));
        }
        i += 1;
    }
    proof {
        assert(occupied.requests@.take(occupied.requests@.len() as int) =~= occupied.requests@);
    }
    let ghost unsorted = pairs@;
    sort_pairs(&mut pairs);
    proof {
        lemma_sort_keeps_bounds(unsorted, occupied.requests@);
        assert(as_pairs(occupied.requests@).len() == occupied.requests@.len());
    }
    let mut sorted: Vec<Position> = Vec::new();
    let mut i: usize = 0;
    while i < pairs.len()
        invariant
            0 <= i <= pairs@.len(),
            sorted@.len() == i,
            forall|k: int|
                0 <= k < i ==> #[trigger] sorted@[k] == (Position {
                    x2: pairs@[k].0,
                    y2: pairs@[k].1,
                }),
        decreases pairs@.len() - i,
    {
        sorted.push(Position { x2: pairs[i].0, y2: pairs[i].1 });
        i += 1;
    }
    proof {
        assert(as_pairs(sorted@) =~= pairs@);
        lemma_pairs_in_range(occupied.requests@);
        assert forall|j: int| 0 <= j < sorted@.len() implies req_in_range(#[trigger] sorted@[j]) by {
            assert(pairs@.contains(pairs@[j]));
            assert(unsorted.sort_by(pair_order()).contains(pairs@[j]));
            assert(as_pairs(occupied.requests@).contains(pairs@[j]));
        }
    }
    occupied.requests = sorted;

    let start = occupied.start_pos;
    let n = occupied.requests.len();
    let ghost ps = occupied.requests@.map_values(|p: Position| spec_add(p, start));
    let mut curr_ent_n: u32 = base_ent_n;
    let mut k: usize = 0;
    while k < n
        invariant
            n == occupied.requests@.len(),
            occupied.wf(),
            occupied.start_pos == start,
            ps == occupied.requests@.map_values(|p: Position| spec_add(p, start)),
            base_ent_n + n <= u32::MAX,
            0 <= k <= n,
            curr_ent_n == base_ent_n + k,
            subs@.len() == k,
            forall|j: int|
                0 <= j < k ==> is_substation(
                    #[trigger] subs@[j],
                    base_ent_n + j,
                    ps[j],
                    occupied.spec_quality(),
                ),
            wires@ == sub_wires(ps, k as int, base_ent_n as int, cov as int),
            cov == spec_coverage(occupied.spec_quality()),
            cov != 0,
        decreases n - k,
    {
        let req = occupied.requests[k];
        let pos = Position { x2: start.x2 + req.x2, y2: start.y2 + req.y2 };
        let mut tag = "sub-(".to_owned();
        tag.append(half_string(pos.x2).as_str());
        tag.append(",");
        tag.append(half_string(pos.y2).as_str());
        tag.append(")");
        proof {
            reveal_strlit("sub-(");
            reveal_strlit(",");
            reveal_strlit(")");
            assert(tag@ =~= spec_sub_tag(pos));
        }
        let mut en = Entity::new(curr_ent_n, SUBSTATION.to_owned(), pos);
        en.quality = occupied.quality;
        en.custom_tag = Some(tag);
        subs.push(en);

        // Connect wires to substations above / substations to the left
        let ghost seen = ps.take(k + 1);
        proof {
            assert forall|j: int| 0 <= j < subs@.len() implies (#[trigger] subs@[j]).position
                == seen[j] by {}
        }
        let d: i64 = 2 * (cov as i64);
        proof {
            lemma_first_index_found(seen, pos, k as int);
            lemma_first_index_bound(seen, pos);
        }
        let me_i = first_index_exec(&subs, pos, Ghost(seen));
        let me = match me_i {
            Some(j) => base_ent_n + j as u32,
            None => curr_ent_n,
        };
        let left = Position { x2: pos.x2 - d, y2: pos.y2 };
        let up = Position { x2: pos.x2, y2: pos.y2 - d };
        let ghost before = wires@;
        match first_index_exec(&subs, left, Ghost(seen)) {
            Some(j) => {
                proof {
                    lemma_first_index_bound(seen, left);
                }
                wires.push([base_ent_n + j as u32, WIRE_C, me, WIRE_C]);
                wires.push([me, WIRE_C, me, WIRE_C]);
            },
            None => {},
        }
        match first_index_exec(&subs, up, Ghost(seen)) {
            Some(j) => {
                proof {
                    lemma_first_index_bound(seen, up);
                }
                wires.push([me, WIRE_C, me, WIRE_C]);
                wires.push([base_ent_n + j as u32, WIRE_C, me, WIRE_C]);
            },
            None => {},
        }
        proof {
            assert(wires@ =~= before + sub_wires_at(ps, k as int, base_ent_n as int, cov as int));
        }
        curr_ent_n += 1;
        k += 1;
    }
    (subs, wires, curr_ent_n)
}

proof fn lemma_first_index_bound(ps: Seq<Position>, p: Position)
    ensures
        first_index(ps, p) matches Some(j) ==> 0 <= j < ps.len() && ps[j] == p,
    decreases ps.len(),
{
    if ps.len() > 0 && ps[0] != p {
        lemma_first_index_bound(ps.drop_first(), p);
    }
}

proof fn lemma_first_index_found(ps: Seq<Position>, p: Position, k: int)
    requires
        0 <= k < ps.len(),
        ps[k] == p,
    ensures
        first_index(ps, p) matches Some(j) && 0 <= j <= k,
    decreases ps.len(),
{
    if ps[0] != p {
        lemma_first_index_found(ps.drop_first(), p, k - 1);
    }
}

/// Sorting keeps every grid point (so they stay within range).
proof fn lemma_sort_keeps_bounds(pairs: Seq<(i64, i64)>, reqs: Seq<Position>)
    requires
        pairs == as_pairs(reqs),
    ensures
        forall|x: (i64, i64)|
            pairs.sort_by(pair_order()).contains(x) ==> as_pairs(reqs).contains(x),
        pairs.sort_by(pair_order()).len() == reqs.len(),
{
    broadcast use vstd::seq_lib::group_to_multiset_ensures;

    crate::blueprint::sort::lemma_pair_order_total();
    pairs.lemma_sort_by_ensures(pair_order());
    assert(pairs.to_multiset().len() == pairs.sort_by(pair_order()).to_multiset().len());
}

proof fn lemma_pairs_in_range(reqs: Seq<Position>)
    requires
        forall|i: int| 0 <= i < reqs.len() ==> req_in_range(#[trigger] reqs[i]),
    ensures
        forall|x: (i64, i64)|
            #[trigger] as_pairs(reqs).contains(x) ==> -4 * POS_LIMIT <= x.0 <= 4 * POS_LIMIT && -4
                * POS_LIMIT <= x.1 <= 4 * POS_LIMIT,
{
    assert forall|x: (i64, i64)| #[trigger] as_pairs(reqs).contains(x) implies -4 * POS_LIMIT
        <= x.0 <= 4 * POS_LIMIT && -4 * POS_LIMIT <= x.1 <= 4 * POS_LIMIT by {
        let m = choose|m: int| 0 <= m < as_pairs(reqs).len() && as_pairs(reqs)[m] == x;
        assert(req_in_range(reqs[m]));
    }
}

proof fn lemma_first_index_skip(ps: Seq<Position>, p: Position, i: int)
    requires
        0 <= i < ps.len(),
    ensures
        first_index(ps.skip(i), p) == (if ps[i] == p {
            Some(0int)
        } else {
            match first_index(ps.skip(i + 1), p) {
                Some(j) => Some(j + 1),
                None => None,
            }
        }),
{
    assert(ps.skip(i).drop_first() =~= ps.skip(i + 1));
}

/// Tiles per side that a substation of a quality supplies with power: 18
/// normal, 20 uncommon, 22 rare, 24 epic, 28 legendary; none otherwise.
pub open spec fn quality_supply_area(q: Quality) -> int {
    match q {
        Quality::Legendary => 28,
        Quality::Epic => 24,
        Quality::Rare => 22,
        Quality::Uncommon => 20,
        Quality::Normal => 18,
        Quality::Unknown => 0,
    }
}

/// Rounding to the nearest multiple of an even `d` moves a value by at most
/// `d / 2`.
proof fn lemma_round_div_near(a: int, d: int)
    requires
        d >= 2,
        d % 2 == 0,
    ensures
        -(d / 2) <= a - d * round_div(a, d) <= d / 2,
{
    if a >= 0 {
        let q = (2 * a + d) / (2 * d);
        vstd::arithmetic::div_mod::lemma_fundamental_div_mod(2 * a + d, 2 * d);
        let r = (2 * a + d) % (2 * d);
        assert(-(d / 2) <= a - d * q <= d / 2) by (nonlinear_arith)
            requires
                2 * a + d == (2 * d) * q + r,
                0 <= r < 2 * d,
                d % 2 == 0,
                d >= 2,
        ;
        assert(round_div(a, d) == q);
    } else {
        let q = (-2 * a + d) / (2 * d);
        vstd::arithmetic::div_mod::lemma_fundamental_div_mod(-2 * a + d, 2 * d);
        let r = (-2 * a + d) % (2 * d);
        assert(-(d / 2) <= a + d * q <= d / 2) by (nonlinear_arith)
            requires
                -2 * a + d == (2 * d) * q + r,
                0 <= r < 2 * d,
                d % 2 == 0,
                d >= 2,
        ;
        assert(round_div(a, d) == -q);
        assert(d * (-q) == -(d * q)) by (nonlinear_arith);
    }
}

/// Every point the generator asks a substation for lies within that
/// substation's supply area: the grid point a point is given is at most
/// half the supply area away from it along each axis (in half tiles, at
/// most the area's side in tiles).
pub proof fn lemma_center_in_supply(q: Quality, p: Position)
    requires
        q != Quality::Unknown,
        -POS_LIMIT <= p.x2 <= POS_LIMIT,
        -POS_LIMIT <= p.y2 <= POS_LIMIT,
    ensures
        ({
            let c = spec_center(p, spec_coverage(Some(q)));
            &&& -quality_supply_area(q) <= p.x2 - c.x2 <= quality_supply_area(q)
            &&& -quality_supply_area(q) <= p.y2 - c.y2 <= quality_supply_area(q)
        }),
{
    let cov = spec_coverage(Some(q));
    assert(2 <= cov <= quality_supply_area(q) && cov % 2 == 0);
    lemma_round_div_near(p.x2 as int, 2 * cov);
    lemma_round_div_near(p.y2 as int, 2 * cov);
    let kx = round_div(p.x2 as int, 2 * cov);
    let ky = round_div(p.y2 as int, 2 * cov);
    assert(-POS_LIMIT - 2 * cov <= 2 * cov * kx <= POS_LIMIT + 2 * cov);
    assert(-POS_LIMIT - 2 * cov <= 2 * cov * ky <= POS_LIMIT + 2 * cov);
}

} // verus!
