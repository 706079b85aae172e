//! The board generator: tile data model, random resource distribution, and
//! the backtracking search that assigns production numbers under the
//! adjacency rules (no equal numbers on touching tiles, no touching 6/8
//! pair, no touching 2/12 pair).

use vstd::prelude::*;

use rand::seq::SliceRandom;

verus! {

use crate::adjacency::spec_adjacency;
use crate::adjacency::lemma_adjacency_properties;
use crate::counting::remove_first;
use crate::counting::lemma_remove_first_absent;
use crate::counting::lemma_remove_first_found;
use vstd::multiset::Multiset;

broadcast use vstd::multiset::group_multiset_axioms, vstd::seq_lib::group_to_multiset_ensures;

/// One kind of produce a tile can yield; `Desert` marks the single barren
/// tile, which never carries a production number.
#[derive(Debug, Clone, Copy, PartialEq, Eq, Structural)]
pub enum Resource {
    Wood,
    Brick,
    Sheep,
    Wheat,
    Ore,
    Desert,
}

/// One hex cell: its resource, its production number (absent for the desert
/// tile and before placement), and the indices of the tiles it touches.
#[derive(Debug, Clone)]
pub struct Tile {
    pub resource: Resource,
    pub number: Option<u8>,
    pub adjacent_indices: Vec<usize>,
}

/// Mathematical image of a `Tile`, with the neighbor list as a sequence of
/// integers.
#[verifier::ext_equal]
pub ghost struct TileView {
    pub resource: Resource,
    pub number: Option<u8>,
    pub adj: Seq<int>,
}

/// A neighbor list as a sequence of integers.
pub open spec fn to_int_seq(s: Seq<usize>) -> Seq<int> {
    s.map_values(|u: usize| u as int)
}

impl View for Tile {
    type V = TileView;

    open spec fn view(&self) -> TileView {
        TileView {
            resource: self.resource,
            number: self.number,
            adj: to_int_seq(self.adjacent_indices@),
        }
    }
}

/// The board: exactly 19 tiles, indexed 0..18 row-major over the hexagonal
/// layout.
pub struct CatanBoard {
    pub tiles: Vec<Tile>,
}

impl View for CatanBoard {
    type V = Seq<TileView>;

    open spec fn view(&self) -> Seq<TileView> {
        self.tiles@.map_values(|t: Tile| t@)
    }
}

/// The fixed multiset of resources as a sequence: four wood, three brick,
/// four sheep, four wheat, three ore, and one desert.
pub open spec fn resource_pool() -> Seq<Resource> {
    seq![
        Resource::Wood,
        Resource::Wood,
        Resource::Wood,
        Resource::Wood,
        Resource::Brick,
        Resource::Brick,
        Resource::Brick,
        Resource::Sheep,
        Resource::Sheep,
        Resource::Sheep,
        Resource::Sheep,
        Resource::Wheat,
        Resource::Wheat,
        Resource::Wheat,
        Resource::Wheat,
        Resource::Ore,
        Resource::Ore,
        Resource::Ore,
        Resource::Desert,
    ]
}

/// The fixed pool of 18 number tokens (2..12 without 7, the extremes once,
/// the rest twice).
pub open spec fn number_pool() -> Seq<u8> {
    seq![2u8, 3, 3, 4, 4, 5, 5, 6, 6, 8, 8, 9, 9, 10, 10, 11, 11, 12]
}

/// Two numbers may sit on touching tiles: they differ, they are not both in
/// {6, 8}, and they are not both in {2, 12}.
pub open spec fn compatible(a: u8, b: u8) -> bool {
    &&& a != b
    &&& !((a == 6 || a == 8) && (b == 6 || b == 8))
    &&& !((a == 2 || a == 12) && (b == 2 || b == 12))
}

/// Placing `n` at tile `i` conflicts with no already-numbered neighbor.
pub open spec fn placement_ok(b: Seq<TileView>, i: int, n: u8) -> bool {
    forall|k: int| #![trigger b[i].adj[k]]
        0 <= k < b[i].adj.len() ==> (b[b[i].adj[k]].number matches Some(m) ==> compatible(n, m))
}

/// Every pair of touching numbered tiles satisfies the placement rules.
pub open spec fn numbers_compatible(b: Seq<TileView>) -> bool {
    forall|i: int, k: int| #![trigger b[i].adj[k]]
        0 <= i < b.len() && 0 <= k < b[i].adj.len() ==> (b[i].number matches Some(n) ==> (b[b[i].adj[k]].number matches Some(m)
            ==> compatible(n, m)))
}

/// Pairs of touching tiles that are both numbered in `e` but were not both
/// numbered in `base` satisfy the placement rules: exactly the compatibility
/// the search establishes, leaving pairs that were already numbered at entry
/// as they were.
pub open spec fn compat_added(base: Seq<TileView>, e: Seq<TileView>) -> bool {
    forall|i: int, k: int| #![trigger e[i].adj[k]]
        0 <= i < e.len() && 0 <= k < e[i].adj.len() && !(base[i].number is Some
            && base[e[i].adj[k]].number is Some) ==> (e[i].number matches Some(n) ==> (
        e[e[i].adj[k]].number matches Some(m) ==> compatible(n, m)))
}

/// A completed search outcome over `base`: `e` gives every unnumbered
/// non-desert tile at index `tile_idx` or beyond a number, drawing the added
/// numbers from `pool`, changes nothing else, and violates no placement rule
/// among the pairs it numbers.
pub open spec fn valid_extension(
    base: Seq<TileView>,
    e: Seq<TileView>,
    tile_idx: int,
    desert_idx: int,
    pool: Seq<u8>,
) -> bool {
    &&& base.len() == 19
    &&& e.len() == 19
    &&& forall|i: int|
        0 <= i < 19 ==> (#[trigger] e[i]).adj == base[i].adj && e[i].resource == base[i].resource
    &&& forall|i: int|
        0 <= i < 19 && base[i].number is Some ==> (#[trigger] e[i]).number == base[i].number
    &&& forall|i: int|
        0 <= i < 19 && !(tile_idx <= i && i != desert_idx) ==> (#[trigger] e[i]).number
            == base[i].number
    &&& forall|i: int| tile_idx <= i < 19 && i != desert_idx ==> (#[trigger] e[i]).number is Some
    &&& placed_numbers(e).subset_of(placed_numbers(base).add(pool.to_multiset()))
    &&& compat_added(base, e)
}

/// A complete valid board over the resource layout of `base`: the same
/// resources and adjacency, the desert tiles and only they unnumbered, the
/// assigned numbers exactly the fixed pool, and no placement rule violated.
pub open spec fn complete_numbering(base: Seq<TileView>, e: Seq<TileView>) -> bool {
    &&& base.len() == 19
    &&& e.len() == 19
    &&& forall|i: int|
        0 <= i < 19 ==> (#[trigger] e[i]).adj == base[i].adj && e[i].resource == base[i].resource
    &&& forall|i: int|
        0 <= i < 19 ==> ((#[trigger] e[i]).number is None <==> e[i].resource == Resource::Desert)
    &&& placed_numbers(e) == number_pool().to_multiset()
    &&& numbers_compatible(e)
}

/// Well-formed board shape: 19 tiles whose neighbor lists stay in range,
/// never list the tile itself, and form a symmetric relation.
pub open spec fn board_wf(b: Seq<TileView>) -> bool {
    &&& b.len() == 19
    &&& forall|i: int, k: int| #![trigger b[i].adj[k]]
        0 <= i < 19 && 0 <= k < b[i].adj.len() ==> 0 <= b[i].adj[k] < 19
    &&& forall|i: int| #![trigger b[i].adj] 0 <= i < 19 ==> !b[i].adj.contains(i)
    &&& forall|i: int, j: int| #![trigger b[i].adj.contains(j)]
        0 <= i < 19 && 0 <= j < 19 && b[i].adj.contains(j) ==> b[j].adj.contains(i)
}

/// The resources of the tiles, in board order.
pub open spec fn resources_of(b: Seq<TileView>) -> Seq<Resource> {
    b.map_values(|t: TileView| t.resource)
}

/// The multiset of numbers currently assigned on the board.
pub open spec fn placed_numbers(b: Seq<TileView>) -> Multiset<u8>
    decreases b.len(),
{
    if b.len() == 0 {
        Multiset::empty()
    } else {
        match b.last().number {
            Some(n) => placed_numbers(b.drop_last()).insert(n),
            None => placed_numbers(b.drop_last()),
        }
    }
}

/// Relies on rand's `SliceRandom::shuffle` with `rand::thread_rng`: it
/// permutes the elements of the vector in place, so the multiset of elements
/// is unchanged.
#[verifier::external_body]
fn shuffle<T>(values: &mut Vec<T>)
    ensures
        final(values)@.len() == old(values)@.len(),
        final(values)@.to_multiset() == old(values)@.to_multiset(),
{
    values.shuffle(&mut rand::thread_rng());
}

/// A copy of a vector of indices, with the same contents.
fn clone_index_vec(v: &Vec<usize>) -> (r: Vec<usize>)
    ensures
        r@ == v@,
{
    let r = v.clone();
    proof {
        assert forall|k: int| 0 <= k < r@.len() implies r@[k] == v@[k] by {
            assert(vstd::pervasive::cloned::<usize>(v[k], r[k]));
        }
        assert(r@ =~= v@);
    }
    r
}

/// A new vector holding `numbers` with the first occurrence of `to_remove`
/// taken out; further occurrences stay, and an absent value changes nothing.
pub fn remove_one(numbers: &Vec<u8>, to_remove: u8) -> (r: Vec<u8>)
    ensures
        r@ == remove_first(numbers@, to_remove),
{
    let n = numbers.len();
    let mut pos: usize = 0;
    while pos < n && numbers[pos] != to_remove
        invariant
            pos <= n,
            n == numbers@.len(),
            forall|k: int| 0 <= k < pos ==> numbers@[k] != to_remove,
        decreases n - pos,
    {
        pos += 1;
    }
    let mut out: Vec<u8> = Vec::new();
    let mut j: usize = 0;
    while j < n
        invariant
            j <= n,
            pos <= n,
            n == numbers@.len(),
            forall|k: int| 0 <= k < pos ==> numbers@[k] != to_remove,
            pos < n ==> numbers@[pos as int] == to_remove,
            out@ == if j <= pos {
                numbers@.subrange(0, j as int)
            } else {
                numbers@.subrange(0, pos as int) + numbers@.subrange(pos as int + 1, j as int)
            },
        decreases n - j,
    {
        if j != pos {
            out.push(numbers[j]);
            proof {
                if j < pos {
                    assert(out@ =~= numbers@.subrange(0, j + 1));
                } else {
                    assert(out@ =~= numbers@.subrange(0, pos as int) + numbers@.subrange(
                        pos as int + 1,
                        j + 1,
                    ));
                }
            }
        } else {
            proof {
                assert(out@ =~= numbers@.subrange(0, pos as int) + numbers@.subrange(
                    pos as int + 1,
                    j + 1,
                ));
            }
        }
        j += 1;
    }
    proof {
        if pos == n {
            assert(!numbers@.contains(to_remove)) by {
                if numbers@.contains(to_remove) {
                    let w = choose|w: int|
                        0 <= w < numbers@.len() && numbers@[w] == to_remove;
                    assert(numbers@[w] != to_remove);
                }
            }
            lemma_remove_first_absent(numbers@, to_remove);
            assert(out@ =~= numbers@);
        } else {
            assert(numbers@.contains(to_remove));
            lemma_remove_first_found(numbers@, to_remove);
            let i = choose|i: int|
                0 <= i < numbers@.len() && numbers@[i] == to_remove && (forall|k: int|
                    0 <= k < i ==> numbers@[k] != to_remove) && remove_first(
                    numbers@,
                    to_remove,
                ) == numbers@.remove(i);
            assert(i == pos as int);
            assert(out@ =~= numbers@.remove(pos as int));
        }
    }
    out
}

/// Three-element neighbor list.
fn adj3(a: usize, b: usize, c: usize) -> (v: Vec<usize>)
    ensures
        v@ == seq![a, b, c],
{
    let mut v: Vec<usize> = Vec::new();
    v.push(a);
    v.push(b);
    v.push(c);
    proof {
        assert(v@ =~= seq![a, b, c]);
    }
    v
}

/// Four-element neighbor list.
fn adj4(a: usize, b: usize, c: usize, d: usize) -> (v: Vec<usize>)
    ensures
        v@ == seq![a, b, c, d],
{
    let mut v: Vec<usize> = Vec::new();
    v.push(a);
    v.push(b);
    v.push(c);
    v.push(d);
    proof {
        assert(v@ =~= seq![a, b, c, d]);
    }
    v
}

/// Six-element neighbor list.
fn adj6(a: usize, b: usize, c: usize, d: usize, e: usize, f: usize) -> (v: Vec<usize>)
    ensures
        v@ == seq![a, b, c, d, e, f],
{
    let mut v: Vec<usize> = Vec::new();
    v.push(a);
    v.push(b);
    v.push(c);
    v.push(d);
    v.push(e);
    v.push(f);
    proof {
        assert(v@ =~= seq![a, b, c, d, e, f]);
    }
    v
}

/// The neighbor lists of the 19 tiles of the standard hexagonal layout, in
/// row-major order; the result matches `spec_adjacency`.
pub fn create_adjacency_map() -> (r: Vec<Vec<usize>>)
    ensures
        r@.len() == 19,
        forall|i: int| 0 <= i < 19 ==> to_int_seq(#[trigger] r@[i]@) == spec_adjacency()[i],
{
    let mut r: Vec<Vec<usize>> = Vec::new();
    r.push(adj3(1, 3, 4));
    r.push(adj4(0, 2, 4, 5));
    r.push(adj3(1, 5, 6));
    r.push(adj4(0, 4, 7, 8));
    r.push(adj6(0, 1, 3, 5, 8, 9));
    r.push(adj6(1, 2, 4, 6, 9, 10));
    r.push(adj4(2, 5, 10, 11));
    r.push(adj3(3, 8, 12));
    r.push(adj6(3, 4, 7, 9, 12, 13));
    r.push(adj6(4, 5, 8, 10, 13, 14));
    r.push(adj6(5, 6, 9, 11, 14, 15));
    r.push(adj3(6, 10, 15));
    r.push(adj4(7, 8, 13, 16));
    r.push(adj6(8, 9, 12, 14, 16, 17));
    r.push(adj6(9, 10, 13, 15, 17, 18));
    r.push(adj4(10, 11, 14, 18));
    r.push(adj3(12, 13, 17));
    r.push(adj4(13, 14, 16, 18));
    r.push(adj3(14, 15, 17));
    proof {
        assert forall|i: int| 0 <= i < 19 implies to_int_seq(r@[i]@) == spec_adjacency()[i] by {
            if i == 0 {
                assert(to_int_seq(r@[0]@) =~= spec_adjacency()[0]);
            } else if i == 1 {
                assert(to_int_seq(r@[1]@) =~= spec_adjacency()[1]);
            } else if i == 2 {
                assert(to_int_seq(r@[2]@) =~= spec_adjacency()[2]);
            } else if i == 3 {
                assert(to_int_seq(r@[3]@) =~= spec_adjacency()[3]);
            } else if i == 4 {
                assert(to_int_seq(r@[4]@) =~= spec_adjacency()[4]);
            } else if i == 5 {
                assert(to_int_seq(r@[5]@) =~= spec_adjacency()[5]);
            } else if i == 6 {
                assert(to_int_seq(r@[6]@) =~= spec_adjacency()[6]);
            } else if i == 7 {
                assert(to_int_seq(r@[7]@) =~= spec_adjacency()[7]);
            } else if i == 8 {
                assert(to_int_seq(r@[8]@) =~= spec_adjacency()[8]);
            } else if i == 9 {
                assert(to_int_seq(r@[9]@) =~= spec_adjacency()[9]);
            } else if i == 10 {
                assert(to_int_seq(r@[10]@) =~= spec_adjacency()[10]);
            } else if i == 11 {
                assert(to_int_seq(r@[11]@) =~= spec_adjacency()[11]);
            } else if i == 12 {
                assert(to_int_seq(r@[12]@) =~= spec_adjacency()[12]);
            } else if i == 13 {
                assert(to_int_seq(r@[13]@) =~= spec_adjacency()[13]);
            } else if i == 14 {
                assert(to_int_seq(r@[14]@) =~= spec_adjacency()[14]);
            } else if i == 15 {
                assert(to_int_seq(r@[15]@) =~= spec_adjacency()[15]);
            } else if i == 16 {
                assert(to_int_seq(r@[16]@) =~= spec_adjacency()[16]);
            } else if i == 17 {
                assert(to_int_seq(r@[17]@) =~= spec_adjacency()[17]);
            } else {
                assert(to_int_seq(r@[18]@) =~= spec_adjacency()[18]);
            }
        }
    }
    r
}

/// The fixed resource pool holds exactly one desert.
proof fn lemma_resource_pool_desert_count()
    ensures
        resource_pool().to_multiset().count(Resource::Desert) == 1,
{
    let s = resource_pool();
    let t = s.drop_last();
    assert(s =~= t.push(Resource::Desert));
    assert(s.to_multiset() =~= t.to_multiset().insert(Resource::Desert));
    assert(!t.contains(Resource::Desert)) by {
        assert forall|k: int| 0 <= k < t.len() implies t[k] != Resource::Desert by {
            assert(t[k] == s[k]);
        }
    }
    assert(t.to_multiset().count(Resource::Desert) == 0);
}

/// The validity check is idempotent: `is_valid_number_placement` returns
/// exactly `placement_ok` of the board view and the arguments, so two
/// evaluations on identical board state — in particular two consecutive
/// calls, since the check mutates nothing — return identical results.
pub proof fn lemma_placement_check_deterministic(
    b1: Seq<TileView>,
    b2: Seq<TileView>,
    i: int,
    n: u8,
)
    requires
        b1 == b2,
    ensures
        placement_ok(b1, i, n) == placement_ok(b2, i, n),
{
}

/// Inserting two values into a multiset commutes.
proof fn lemma_insert_comm<V>(m: Multiset<V>, x: V, y: V)
    ensures
        m.insert(x).insert(y) == m.insert(y).insert(x),
{
    assert(m.insert(x).insert(y) =~= m.insert(y).insert(x));
}

/// How replacing the tile at index `i` by `t` changes the multiset of
/// assigned numbers, for each combination of old and new number.
proof fn lemma_placed_update(b: Seq<TileView>, i: int, t: TileView)
    requires
        0 <= i < b.len(),
    ensures
        b[i].number is None && t.number is None ==> placed_numbers(b.update(i, t))
            == placed_numbers(b),
        b[i].number is None && t.number is Some ==> placed_numbers(b.update(i, t))
            == placed_numbers(b).insert(t.number->0),
        b[i].number is Some && t.number is None ==> placed_numbers(b.update(i, t)).insert(
            b[i].number->0,
        ) == placed_numbers(b),
        b[i].number is Some && t.number is Some ==> placed_numbers(b.update(i, t)).insert(
            b[i].number->0,
        ) == placed_numbers(b).insert(t.number->0),
    decreases b.len(),
{
    let u = b.update(i, t);
    if i == b.len() - 1 {
        assert(u.drop_last() =~= b.drop_last());
        assert(u.last() == t);
        assert(b.last() == b[i]);
    } else {
        let bd = b.drop_last();
        assert(u.drop_last() =~= bd.update(i, t));
        assert(u.last() == b.last());
        lemma_placed_update(bd, i, t);
        assert(bd[i] == b[i]);
        match b.last().number {
            Option::Some(k) => {
                if b[i].number is None && t.number is Some {
                    lemma_insert_comm(placed_numbers(bd), t.number->0, k);
                } else if b[i].number is Some && t.number is None {
                    lemma_insert_comm(placed_numbers(bd.update(i, t)), k, b[i].number->0);
                } else if b[i].number is Some && t.number is Some {
                    lemma_insert_comm(placed_numbers(bd.update(i, t)), k, b[i].number->0);
                    lemma_insert_comm(placed_numbers(bd), t.number->0, k);
                }
            },
            Option::None => {},
        }
    }
}

/// A board without any assigned number has an empty number multiset.
proof fn lemma_placed_all_none(b: Seq<TileView>)
    requires
        forall|i: int| 0 <= i < b.len() ==> (#[trigger] b[i]).number is None,
    ensures
        placed_numbers(b) == Multiset::<u8>::empty(),
    decreases b.len(),
{
    if b.len() > 0 {
        lemma_placed_all_none(b.drop_last());
    }
}

/// A board with a number on every tile has as many assigned numbers as
/// tiles.
proof fn lemma_placed_len_all_some(b: Seq<TileView>)
    requires
        forall|i: int| 0 <= i < b.len() ==> (#[trigger] b[i]).number is Some,
    ensures
        placed_numbers(b).len() == b.len(),
    decreases b.len(),
{
    if b.len() > 0 {
        lemma_placed_len_all_some(b.drop_last());
    }
}

/// A board with a number everywhere but at one index has one assigned
/// number fewer than tiles.
proof fn lemma_placed_len_one_none(b: Seq<TileView>, d: int)
    requires
        0 <= d < b.len(),
        b[d].number is None,
        forall|i: int| 0 <= i < b.len() && i != d ==> (#[trigger] b[i]).number is Some,
    ensures
        placed_numbers(b).len() == b.len() - 1,
    decreases b.len(),
{
    if d == b.len() - 1 {
        lemma_placed_len_all_some(b.drop_last());
    } else {
        lemma_placed_len_one_none(b.drop_last(), d);
    }
}

/// A board with the same neighbor lists as a well-formed one is itself
/// well-formed.
proof fn lemma_wf_same_adj(b1: Seq<TileView>, b2: Seq<TileView>)
    requires
        board_wf(b1),
        b2.len() == 19,
        forall|i: int| 0 <= i < 19 ==> (#[trigger] b2[i]).adj == b1[i].adj,
    ensures
        board_wf(b2),
{
    assert forall|i: int, k: int| #![trigger b2[i].adj[k]]
        0 <= i < 19 && 0 <= k < b2[i].adj.len() implies 0 <= b2[i].adj[k] < 19 by {
        assert(b1[i].adj[k] == b2[i].adj[k]);
    }
    assert forall|i: int| #![trigger b2[i].adj] 0 <= i < 19 implies !b2[i].adj.contains(i) by {
        assert(b2[i].adj == b1[i].adj);
    }
    assert forall|i: int, j: int|
        0 <= i < 19 && 0 <= j < 19 && #[trigger] b2[i].adj.contains(j)
        implies b2[j].adj.contains(i) by {
        assert(b1[i].adj.contains(j));
    }
}

/// A board adds no numbered pair over itself.
proof fn lemma_compat_added_self(b: Seq<TileView>)
    ensures
        compat_added(b, b),
{
    assert forall|i: int, k: int| #![trigger b[i].adj[k]]
        0 <= i < b.len() && 0 <= k < b[i].adj.len() && !(b[i].number is Some
            && b[b[i].adj[k]].number is Some) implies (b[i].number matches Some(n) ==> (
    b[b[i].adj[k]].number matches Some(m) ==> compatible(n, m))) by {}
}

/// A board whose pairs are all compatible adds no incompatible pair over
/// any base.
proof fn lemma_compat_added_from_full(base: Seq<TileView>, e: Seq<TileView>)
    requires
        numbers_compatible(e),
    ensures
        compat_added(base, e),
{
    assert forall|i: int, k: int| #![trigger e[i].adj[k]]
        0 <= i < e.len() && 0 <= k < e[i].adj.len() && !(base[i].number is Some
            && base[e[i].adj[k]].number is Some) implies (e[i].number matches Some(n) ==> (
    e[e[i].adj[k]].number matches Some(m) ==> compatible(n, m))) by {
        assert(0 <= i < e.len() && 0 <= k < e[i].adj.len());
    }
}

/// Over a base without any number, the added pairs are all pairs: the board
/// is fully compatible.
proof fn lemma_compat_added_all_none(base: Seq<TileView>, e: Seq<TileView>)
    requires
        base.len() == e.len(),
        forall|i: int| 0 <= i < base.len() ==> (#[trigger] base[i]).number is None,
        compat_added(base, e),
    ensures
        numbers_compatible(e),
{
    assert forall|i: int, k: int| #![trigger e[i].adj[k]]
        0 <= i < e.len() && 0 <= k < e[i].adj.len() implies (e[i].number matches Some(n) ==> (
    e[e[i].adj[k]].number matches Some(m) ==> compatible(n, m))) by {
        assert(!(base[i].number is Some && base[e[i].adj[k]].number is Some));
    }
}

/// Compatibility established by a placement composes: if placing `v` at the
/// unnumbered tile `t` of `base` passes the placement check, and `e` adds no
/// incompatible pair over the board with `v` placed, then `e` adds no
/// incompatible pair over `base` either.
proof fn lemma_compat_added_compose(
    base: Seq<TileView>,
    mid: Seq<TileView>,
    e: Seq<TileView>,
    t: int,
    v: u8,
)
    requires
        board_wf(base),
        0 <= t < 19,
        base[t].number is None,
        placement_ok(base, t, v),
        mid == base.update(t, (TileView { resource: base[t].resource, number: Some(v), adj: base[t].adj })),
        e.len() == 19,
        forall|i: int| 0 <= i < 19 ==> (#[trigger] e[i]).adj == base[i].adj,
        forall|i: int| 0 <= i < 19 && mid[i].number is Some ==> (#[trigger] e[i]).number == mid[i].number,
        compat_added(mid, e),
    ensures
        compat_added(base, e),
{
    assert forall|p: int, k: int| #![trigger e[p].adj[k]]
        0 <= p < e.len() && 0 <= k < e[p].adj.len() && !(base[p].number is Some
            && base[e[p].adj[k]].number is Some) implies (e[p].number matches Some(x) ==> (
    e[e[p].adj[k]].number matches Some(y) ==> compatible(x, y))) by {
        assert(e[p].adj == base[p].adj);
        let j = base[p].adj[k];
        assert(0 <= j < 19);
        if e[p].number is Some && e[j].number is Some {
            let x = e[p].number->0;
            let y = e[j].number->0;
            if !(mid[p].number is Some && mid[j].number is Some) {
                assert(compatible(x, y));
            } else if p == t {
                assert(j != t);
                assert(mid[t].number == Some(v));
                assert(e[t].number == Some(v));
                assert(base[j].number == mid[j].number);
                assert(e[j].number == mid[j].number);
                assert(base[t].adj[k] == j);
                assert(base[base[t].adj[k]].number matches Some(m) ==> compatible(v, m));
                assert(compatible(x, y));
            } else if j == t {
                assert(base[p].number == mid[p].number);
                assert(e[p].number == mid[p].number);
                assert(e[t].number == Some(v));
                assert(base[p].adj[k] == t);
                assert(base[p].adj.contains(t));
                assert(base[t].adj.contains(p));
                let q = choose|q: int| 0 <= q < base[t].adj.len() && base[t].adj[q] == p;
                assert(base[base[t].adj[q]].number matches Some(m) ==> compatible(v, m));
                assert(compatible(v, x));
                assert(compatible(x, y));
            } else {
                assert(base[p].number == mid[p].number);
                assert(base[j].number == mid[j].number);
                assert(false);
            }
        }
    }
}

/// Skipping a tile: when the cursor stands on the desert tile or on a tile
/// that already holds a number, the search outcomes from this cursor and
/// from the next cursor are the same boards — the tile is passed over
/// without consuming a candidate.
pub proof fn lemma_extension_skip(
    base: Seq<TileView>,
    e: Seq<TileView>,
    tile_idx: int,
    desert_idx: int,
    pool: Seq<u8>,
)
    requires
        0 <= tile_idx < 19,
        base.len() == 19,
        tile_idx == desert_idx || base[tile_idx].number is Some,
    ensures
        valid_extension(base, e, tile_idx, desert_idx, pool) == valid_extension(
            base,
            e,
            tile_idx + 1,
            desert_idx,
            pool,
        ),
{
    if valid_extension(base, e, tile_idx, desert_idx, pool) {
        assert forall|i: int|
            0 <= i < 19 && !(tile_idx + 1 <= i && i != desert_idx) implies (#[trigger] e[i]).number
            == base[i].number by {
            if i == tile_idx && i != desert_idx {
                assert(base[i].number is Some);
            }
        }
        assert(valid_extension(base, e, tile_idx + 1, desert_idx, pool));
    }
    if valid_extension(base, e, tile_idx + 1, desert_idx, pool) {
        assert forall|i: int|
            tile_idx <= i < 19 && i != desert_idx implies (#[trigger] e[i]).number is Some by {
            if i == tile_idx {
                assert(base[i].number is Some);
                assert(e[i].number == base[i].number);
            }
        }
        assert(valid_extension(base, e, tile_idx, desert_idx, pool));
    }
}

/// The value a valid extension puts at the cursor tile passes the placement
/// check on the base board.
proof fn lemma_extension_gives_placement_ok(
    base: Seq<TileView>,
    e: Seq<TileView>,
    tile_idx: int,
    desert_idx: int,
    pool: Seq<u8>,
    v: u8,
)
    requires
        board_wf(base),
        valid_extension(base, e, tile_idx, desert_idx, pool),
        0 <= tile_idx < 19,
        tile_idx != desert_idx,
        base[tile_idx].number is None,
        e[tile_idx].number == Some(v),
    ensures
        placement_ok(base, tile_idx, v),
{
    assert forall|k: int| #![trigger base[tile_idx].adj[k]]
        0 <= k < base[tile_idx].adj.len() implies (base[base[tile_idx].adj[k]].number matches Some(
        m,
    ) ==> compatible(v, m)) by {
        let j = base[tile_idx].adj[k];
        assert(0 <= j < 19);
        if base[j].number is Some {
            assert(e[j].number == base[j].number);
            assert(e[tile_idx].adj[k] == j);
            assert(!(base[tile_idx].number is Some && base[j].number is Some));
        }
    }
}

/// A valid extension that places `v` at the cursor tile is, equally, a valid
/// extension of the board with `v` placed there, from the next cursor, over
/// the pool with one occurrence of `v` removed.
proof fn lemma_extension_step(
    base: Seq<TileView>,
    e: Seq<TileView>,
    tile_idx: int,
    desert_idx: int,
    pool: Seq<u8>,
    v: u8,
    mid: Seq<TileView>,
)
    requires
        board_wf(base),
        0 <= tile_idx < 19,
        tile_idx != desert_idx,
        base[tile_idx].number is None,
        valid_extension(base, e, tile_idx, desert_idx, pool),
        e[tile_idx].number == Some(v),
        pool.contains(v),
        mid == base.update(
            tile_idx,
            (TileView { resource: base[tile_idx].resource, number: Some(v), adj: base[tile_idx].adj }),
        ),
    ensures
        valid_extension(mid, e, tile_idx + 1, desert_idx, remove_first(pool, v)),
{
    lemma_placed_update(
        base,
        tile_idx,
        (TileView { resource: base[tile_idx].resource, number: Some(v), adj: base[tile_idx].adj }),
    );
    assert(placed_numbers(mid) == placed_numbers(base).insert(v));
    lemma_remove_first_found(pool, v);
    let fi = choose|fi: int|
        0 <= fi < pool.len() && pool[fi] == v && (forall|k: int| 0 <= k < fi ==> pool[k] != v)
            && remove_first(pool, v) == pool.remove(fi);
    assert(remove_first(pool, v).to_multiset() == pool.to_multiset().remove(v));
    assert(pool.to_multiset().count(v) >= 1);
    assert forall|w: u8|
        placed_numbers(e).count(w) <= placed_numbers(mid).add(
            remove_first(pool, v).to_multiset(),
        ).count(w) by {
        assert(placed_numbers(e).count(w) <= placed_numbers(base).add(pool.to_multiset()).count(w));
    }
    assert forall|i: int|
        0 <= i < 19 && mid[i].number is Some implies (#[trigger] e[i]).number == mid[i].number by {
        if i != tile_idx {
            assert(mid[i].number == base[i].number);
        }
    }
    assert forall|i: int, k: int| #![trigger e[i].adj[k]]
        0 <= i < e.len() && 0 <= k < e[i].adj.len() && !(mid[i].number is Some
            && mid[e[i].adj[k]].number is Some) implies (e[i].number matches Some(n) ==> (
    e[e[i].adj[k]].number matches Some(m) ==> compatible(n, m))) by {
        assert(e[i].adj == base[i].adj);
        let j = base[i].adj[k];
        assert(0 <= j < 19);
        assert(!(base[i].number is Some && base[j].number is Some));
    }
    assert(compat_added(mid, e));
    assert(valid_extension(mid, e, tile_idx + 1, desert_idx, remove_first(pool, v)));
}

/// A board that preserves every assigned number of another holds each value
/// at least as often.
proof fn lemma_placed_count_mono(b0: Seq<TileView>, e: Seq<TileView>, v: u8)
    requires
        b0.len() == e.len(),
        forall|i: int|
            0 <= i < b0.len() && b0[i].number is Some ==> (#[trigger] e[i]).number == b0[i].number,
    ensures
        placed_numbers(b0).count(v) <= placed_numbers(e).count(v),
    decreases b0.len(),
{
    if b0.len() > 0 {
        lemma_placed_count_mono(b0.drop_last(), e.drop_last(), v);
    }
}

/// A board that preserves every assigned number of another and numbers one
/// further tile with `v` holds `v` strictly more often.
proof fn lemma_placed_count_extension(b0: Seq<TileView>, e: Seq<TileView>, t: int, v: u8)
    requires
        b0.len() == e.len(),
        forall|i: int|
            0 <= i < b0.len() && b0[i].number is Some ==> (#[trigger] e[i]).number == b0[i].number,
        0 <= t < b0.len(),
        b0[t].number is None,
        e[t].number == Some(v),
    ensures
        placed_numbers(e).count(v) >= placed_numbers(b0).count(v) + 1,
    decreases b0.len(),
{
    if t == b0.len() - 1 {
        lemma_placed_count_mono(b0.drop_last(), e.drop_last(), v);
    } else {
        lemma_placed_count_extension(b0.drop_last(), e.drop_last(), t, v);
    }
}

impl CatanBoard {
    /// Well-formed board: the shape invariant over the mathematical view.
    pub open spec fn wf(self) -> bool {
        board_wf(self@)
    }

    /// A fresh board: adjacency fixed per the standard layout, every tile
    /// holding the placeholder resource and no number.
    pub fn new() -> (board: CatanBoard)
        ensures
            board.wf(),
            forall|i: int|
                0 <= i < 19 ==> (#[trigger] board@[i]).number is None && board@[i].resource
                    == Resource::Desert && board@[i].adj == spec_adjacency()[i],
    {
        let adjacency_map = create_adjacency_map();
        let mut tiles: Vec<Tile> = Vec::new();
        let mut i: usize = 0;
        while i < 19
            invariant
                adjacency_map@.len() == 19,
                forall|p: int|
                    0 <= p < 19 ==> to_int_seq(#[trigger] adjacency_map@[p]@) == spec_adjacency(
                    )[p],
                i <= 19,
                tiles@.len() == i,
                forall|p: int|
                    0 <= p < i ==> (#[trigger] tiles@[p]@).number is None && tiles@[p]@.resource
                        == Resource::Desert && tiles@[p]@.adj == spec_adjacency()[p],
            decreases 19 - i,
        {
            let adj = clone_index_vec(&adjacency_map[i]);
            tiles.push(Tile { resource: Resource::Desert, number: None, adjacent_indices: adj });
            i += 1;
        }
        let board = CatanBoard { tiles };
        proof {
            lemma_adjacency_properties();
            assert(board@.len() == 19);
            assert forall|p: int| 0 <= p < 19 implies board@[p] == tiles@[p]@ by {}
            assert forall|i: int, j: int|
                0 <= i < 19 && 0 <= j < 19 && #[trigger] board@[i].adj.contains(j)
                implies board@[j].adj.contains(i) by {
                assert(spec_adjacency()[i].contains(j));
            }
            assert(board.wf());
        }
        board
    }

    /// Overwrite the number of tile `i`, keeping its resource and neighbors.
    fn set_tile_number(&mut self, i: usize, n: Option<u8>)
        requires
            i < old(self)@.len(),
        ensures
            final(self)@ == old(self)@.update(
                i as int,
                (TileView {
                    resource: old(self)@[i as int].resource,
                    number: n,
                    adj: old(self)@[i as int].adj,
                }),
            ),
    {
        let adj = clone_index_vec(&self.tiles[i].adjacent_indices);
        let resource = self.tiles[i].resource;
        self.tiles[i] = Tile { resource, number: n, adjacent_indices: adj };
        proof {
            let t = TileView {
                resource: old(self)@[i as int].resource,
                number: n,
                adj: old(self)@[i as int].adj,
            };
            assert forall|p: int| 0 <= p < self@.len() implies self@[p] == old(self)@.update(
                i as int,
                t,
            )[p] by {
                if p == i {
                    assert(self@[p] =~= t);
                }
            }
            assert(self@ =~= old(self)@.update(i as int, t));
        }
    }

    /// Overwrite the resource of tile `i`, keeping its number and neighbors.
    fn set_tile_resource(&mut self, i: usize, resource: Resource)
        requires
            i < old(self)@.len(),
        ensures
            final(self)@ == old(self)@.update(
                i as int,
                (TileView {
                    resource: resource,
                    number: old(self)@[i as int].number,
                    adj: old(self)@[i as int].adj,
                }),
            ),
    {
        let adj = clone_index_vec(&self.tiles[i].adjacent_indices);
        let number = self.tiles[i].number;
        self.tiles[i] = Tile { resource, number, adjacent_indices: adj };
        proof {
            let t = TileView {
                resource: resource,
                number: old(self)@[i as int].number,
                adj: old(self)@[i as int].adj,
            };
            assert forall|p: int| 0 <= p < self@.len() implies self@[p] == old(self)@.update(
                i as int,
                t,
            )[p] by {
                if p == i {
                    assert(self@[p] =~= t);
                }
            }
            assert(self@ =~= old(self)@.update(i as int, t));
        }
    }

    /// Whether number `number` may be placed at tile `tile_idx`: no
    /// already-numbered neighbor holds the same number, a number in {6, 8}
    /// when `number` is in {6, 8}, or one in {2, 12} when `number` is in
    /// {2, 12}. A pure check: the result is a function of the board state
    /// and the arguments alone.
    pub fn is_valid_number_placement(&self, tile_idx: usize, number: u8) -> (r: bool)
        requires
            self.wf(),
            tile_idx < 19,
        ensures
            r == placement_ok(self@, tile_idx as int, number),
    {
        let len = self.tiles[tile_idx].adjacent_indices.len();
        let mut k: usize = 0;
        while k < len
            invariant
                self.wf(),
                tile_idx < 19,
                len == self@[tile_idx as int].adj.len(),
                k <= len,
                forall|p: int| #![trigger self@[tile_idx as int].adj[p]]
                    0 <= p < k ==> (self@[self@[tile_idx as int].adj[p]].number matches Some(m)
                        ==> compatible(number, m)),
            decreases len - k,
        {
            let j = self.tiles[tile_idx].adjacent_indices[k];
            proof {
                assert(j as int == self@[tile_idx as int].adj[k as int]);
                assert(j < 19);
            }
            match self.tiles[j].number {
                Option::Some(m) => {
                    if m == number || ((number == 6 || number == 8) && (m == 6 || m == 8)) || ((
                    number == 2 || number == 12) && (m == 2 || m == 12)) {
                        proof {
                            assert(!compatible(number, m));
                            assert(!placement_ok(self@, tile_idx as int, number));
                        }
                        return false;
                    }
                },
                Option::None => {},
            }
            k += 1;
        }
        true
    }

    /// Assign the fixed resource pool to the 19 tiles in a random order.
    /// Every tile's resource is overwritten; numbers and neighbor lists are
    /// untouched; the multiset of resources on the board is always exactly
    /// the fixed pool, whatever order the shuffle produced.
    #[verifier::loop_isolation(false)]
    pub fn distribute_resources(&mut self)
        requires
            old(self).wf(),
        ensures
            final(self).wf(),
            final(self)@.len() == 19,
            forall|i: int|
                0 <= i < 19 ==> (#[trigger] final(self)@[i]).adj == old(self)@[i].adj && final(self)@[i].number == old(self)@[i].number,
            resources_of(final(self)@).to_multiset() == resource_pool().to_multiset(),
    {
        let mut resources: Vec<Resource> = Vec::new();
        resources.push(Resource::Wood);
        resources.push(Resource::Wood);
        resources.push(Resource::Wood);
        resources.push(Resource::Wood);
        resources.push(Resource::Brick);
        resources.push(Resource::Brick);
        resources.push(Resource::Brick);
        resources.push(Resource::Sheep);
        resources.push(Resource::Sheep);
        resources.push(Resource::Sheep);
        resources.push(Resource::Sheep);
        resources.push(Resource::Wheat);
        resources.push(Resource::Wheat);
        resources.push(Resource::Wheat);
        resources.push(Resource::Wheat);
        resources.push(Resource::Ore);
        resources.push(Resource::Ore);
        resources.push(Resource::Ore);
        resources.push(Resource::Desert);
        proof {
            assert(resources@ =~= resource_pool());
        }
        shuffle(&mut resources);
        let mut idx: usize = 0;
        while idx < 19
            invariant
                idx <= 19,
                self@.len() == 19,
                resources@.len() == 19,
                resources@.to_multiset() == resource_pool().to_multiset(),
                forall|i: int|
                    0 <= i < 19 ==> (#[trigger] self@[i]).adj == old(self)@[i].adj && self@[i].number
                        == old(self)@[i].number,
                forall|i: int| 0 <= i < idx ==> (#[trigger] self@[i]).resource == resources@[i],
            decreases 19 - idx,
        {
            let r = resources[idx];
            self.set_tile_resource(idx, r);
            idx += 1;
        }
        proof {
            assert(resources_of(self@) =~= resources@);
            lemma_wf_same_adj(old(self)@, self@);
        }
    }

    /// Backtracking number placement from tile `tile_idx` onward. Tiles
    /// before the cursor are never touched; the desert tile and tiles that
    /// already hold a number are skipped without consuming a candidate; at
    /// every other tile each remaining candidate is tried in pool order.
    ///
    /// The search is exhaustive: it returns true exactly when the partial
    /// numbering at entry extends to a complete one — every unnumbered
    /// non-desert tile from the cursor on numbered from the available pool,
    /// with no placement rule violated among the pairs so numbered — and on
    /// success the board holds such an extension. On failure the board is
    /// exactly as it was.
    #[verifier::loop_isolation(false)]
    pub fn place_numbers_backtracking(
        &mut self,
        tile_idx: usize,
        available_numbers: &Vec<u8>,
        desert_idx: usize,
    ) -> (r: bool)
        requires
            old(self).wf(),
            desert_idx < 19,
            old(self)@[desert_idx as int].number is None,
            tile_idx <= 19,
        ensures
            final(self).wf(),
            final(self)@.len() == 19,
            forall|i: int|
                0 <= i < 19 ==> (#[trigger] final(self)@[i]).adj == old(self)@[i].adj && final(self)@[i].resource == old(self)@[i].resource,
            forall|i: int|
                0 <= i < 19 && old(self)@[i].number is Some ==> (#[trigger] final(self)@[i]).number == old(self)@[i].number,
            forall|i: int|
                0 <= i < 19 && !(tile_idx <= i && i != desert_idx) ==> (#[trigger] final(self)@[i]).number == old(self)@[i].number,
            final(self)@[desert_idx as int].number is None,
            !r ==> final(self)@ == old(self)@,
            r ==> (forall|i: int|
                tile_idx <= i < 19 && i != desert_idx ==> (#[trigger] final(self)@[i]).number is Some),
            r ==> placed_numbers(final(self)@).subset_of(
                placed_numbers(old(self)@).add(available_numbers@.to_multiset()),
            ),
            r ==> compat_added(old(self)@, final(self)@),
            r == (exists|e: Seq<TileView>|
                valid_extension(
                    old(self)@,
                    e,
                    tile_idx as int,
                    desert_idx as int,
                    available_numbers@,
                )),
        decreases 19 - tile_idx,
    {
        proof {
            assert(self.tiles@.len() == 19);
        }
        if tile_idx >= self.tiles.len() {
            proof {
                assert forall|v: u8|
                    placed_numbers(self@).count(v) <= placed_numbers(old(self)@).add(
                        available_numbers@.to_multiset(),
                    ).count(v) by {}
                lemma_compat_added_self(self@);
                assert(valid_extension(
                    old(self)@,
                    self@,
                    tile_idx as int,
                    desert_idx as int,
                    available_numbers@,
                ));
            }
            return true;
        }
        if tile_idx == desert_idx || self.tiles[tile_idx].number.is_some() {
            let r = self.place_numbers_backtracking(tile_idx + 1, available_numbers, desert_idx);
            proof {
                assert forall|e: Seq<TileView>|
                    valid_extension(
                        old(self)@,
                        e,
                        tile_idx as int,
                        desert_idx as int,
                        available_numbers@,
                    ) == valid_extension(
                        old(self)@,
                        e,
                        tile_idx as int + 1,
                        desert_idx as int,
                        available_numbers@,
                    ) by {
                    lemma_extension_skip(
                        old(self)@,
                        e,
                        tile_idx as int,
                        desert_idx as int,
                        available_numbers@,
                    );
                }
                if r {
                    let e0 = choose|e: Seq<TileView>|
                        #[trigger] valid_extension(
                            old(self)@,
                            e,
                            tile_idx as int + 1,
                            desert_idx as int,
                            available_numbers@,
                        );
                    assert(valid_extension(
                        old(self)@,
                        e0,
                        tile_idx as int,
                        desert_idx as int,
                        available_numbers@,
                    ));
                } else {
                    if exists|e: Seq<TileView>|
                        valid_extension(
                            old(self)@,
                            e,
                            tile_idx as int,
                            desert_idx as int,
                            available_numbers@,
                        ) {
                        let e0 = choose|e: Seq<TileView>|
                            #[trigger] valid_extension(
                                old(self)@,
                                e,
                                tile_idx as int,
                                desert_idx as int,
                                available_numbers@,
                            );
                        assert(valid_extension(
                            old(self)@,
                            e0,
                            tile_idx as int + 1,
                            desert_idx as int,
                            available_numbers@,
                        ));
                        assert(false);
                    }
                }
            }
            return r;
        }
        let mut c: usize = 0;
        while c < available_numbers.len()
            invariant
                self@ == old(self)@,
                c <= available_numbers@.len(),
                forall|e: Seq<TileView>, j: int|
                    #![trigger valid_extension(old(self)@, e, tile_idx as int, desert_idx as int, available_numbers@), available_numbers@[j]]
                    0 <= j < c && valid_extension(
                        old(self)@,
                        e,
                        tile_idx as int,
                        desert_idx as int,
                        available_numbers@,
                    ) ==> e[tile_idx as int].number != Some(available_numbers@[j]),
            decreases available_numbers@.len() - c,
        {
            let num = available_numbers[c];
            if self.is_valid_number_placement(tile_idx, num) {
                let ghost placed_tile = TileView {
                    resource: old(self)@[tile_idx as int].resource,
                    number: Some(num),
                    adj: old(self)@[tile_idx as int].adj,
                };
                self.set_tile_number(tile_idx, Some(num));
                let ghost mid = self@;
                proof {
                    assert(mid == old(self)@.update(tile_idx as int, placed_tile));
                    lemma_placed_update(old(self)@, tile_idx as int, placed_tile);
                    assert(placed_numbers(mid) == placed_numbers(old(self)@).insert(num));
                    assert forall|i: int| 0 <= i < 19 implies (#[trigger] mid[i]).adj == old(self)@[i].adj by {}
                    lemma_wf_same_adj(old(self)@, mid);
                }
                let new_available = remove_one(available_numbers, num);
                proof {
                    assert(available_numbers@[c as int] == num);
                    assert(available_numbers@.contains(num));
                    lemma_remove_first_found(available_numbers@, num);
                    let fi = choose|fi: int|
                        0 <= fi < available_numbers@.len() && available_numbers@[fi] == num && (
                        forall|k: int| 0 <= k < fi ==> available_numbers@[k] != num)
                            && remove_first(available_numbers@, num) == available_numbers@.remove(
                            fi,
                        );
                    assert(new_available@.to_multiset() == available_numbers@.to_multiset().remove(
                        num,
                    ));
                }
                if self.place_numbers_backtracking(tile_idx + 1, &new_available, desert_idx) {
                    proof {
                        assert forall|i: int| 0 <= i < 19 implies (#[trigger] self@[i]).adj == old(self)@[i].adj && self@[i].resource == old(self)@[i].resource by {
                            assert(self@[i].adj == mid[i].adj);
                            assert(self@[i].resource == mid[i].resource);
                        }
                        lemma_wf_same_adj(old(self)@, self@);
                        assert(mid[tile_idx as int].number is Some);
                        assert(self@[tile_idx as int].number is Some);
                        assert forall|i: int|
                            0 <= i < 19 && !(tile_idx as int <= i && i != desert_idx as int) implies (
                        #[trigger] self@[i]).number == old(self)@[i].number by {
                            assert(self@[i].number == mid[i].number);
                            assert(mid[i].number == old(self)@[i].number);
                        }
                        let pool = available_numbers@.to_multiset();
                        assert(placed_numbers(old(self)@).insert(num).add(pool.remove(num)) =~= placed_numbers(
                            old(self)@,
                        ).add(pool)) by {
                            assert(pool.count(num) >= 1);
                        }
                        assert forall|v: u8|
                            placed_numbers(self@).count(v) <= placed_numbers(old(self)@).add(
                                pool,
                            ).count(v) by {
                            assert(placed_numbers(self@).count(v) <= placed_numbers(mid).add(
                                new_available@.to_multiset(),
                            ).count(v));
                        }
                        lemma_compat_added_compose(old(self)@, mid, self@, tile_idx as int, num);
                        assert(valid_extension(
                            old(self)@,
                            self@,
                            tile_idx as int,
                            desert_idx as int,
                            available_numbers@,
                        ));
                    }
                    return true;
                }
                self.set_tile_number(tile_idx, None);
                proof {
                    let cleared_tile = TileView {
                        resource: mid[tile_idx as int].resource,
                        number: None,
                        adj: mid[tile_idx as int].adj,
                    };
                    assert(self@ == mid.update(tile_idx as int, cleared_tile));
                    assert forall|p: int| 0 <= p < 19 implies self@[p] == old(self)@[p] by {
                        if p == tile_idx {
                            assert(cleared_tile =~= old(self)@[p]);
                        }
                    }
                    assert(self@ =~= old(self)@);
                    assert forall|e: Seq<TileView>|
                        valid_extension(
                            old(self)@,
                            e,
                            tile_idx as int,
                            desert_idx as int,
                            available_numbers@,
                        ) implies e[tile_idx as int].number != Some(num) by {
                        if e[tile_idx as int].number == Some(num) {
                            lemma_extension_step(
                                old(self)@,
                                e,
                                tile_idx as int,
                                desert_idx as int,
                                available_numbers@,
                                num,
                                mid,
                            );
                            assert(valid_extension(
                                mid,
                                e,
                                tile_idx as int + 1,
                                desert_idx as int,
                                new_available@,
                            ));
                            assert(false);
                        }
                    }
                }
            } else {
                proof {
                    assert forall|e: Seq<TileView>|
                        valid_extension(
                            old(self)@,
                            e,
                            tile_idx as int,
                            desert_idx as int,
                            available_numbers@,
                        ) implies e[tile_idx as int].number != Some(num) by {
                        if e[tile_idx as int].number == Some(num) {
                            lemma_extension_gives_placement_ok(
                                old(self)@,
                                e,
                                tile_idx as int,
                                desert_idx as int,
                                available_numbers@,
                                num,
                            );
                        }
                    }
                }
            }
            c += 1;
        }
        proof {
            assert(!(exists|e: Seq<TileView>|
                valid_extension(
                    old(self)@,
                    e,
                    tile_idx as int,
                    desert_idx as int,
                    available_numbers@,
                ))) by {
                if exists|e: Seq<TileView>|
                    valid_extension(
                        old(self)@,
                        e,
                        tile_idx as int,
                        desert_idx as int,
                        available_numbers@,
                    ) {
                    let e = choose|e: Seq<TileView>|
                        #[trigger] valid_extension(
                            old(self)@,
                            e,
                            tile_idx as int,
                            desert_idx as int,
                            available_numbers@,
                        );
                    assert(e[tile_idx as int].number is Some);
                    let v = e[tile_idx as int].number->0;
                    lemma_placed_count_extension(old(self)@, e, tile_idx as int, v);
                    assert(placed_numbers(e).count(v) <= placed_numbers(old(self)@).count(v)
                        + available_numbers@.to_multiset().count(v));
                    assert(available_numbers@.to_multiset().count(v) >= 1);
                    assert(available_numbers@.contains(v));
                    let j = choose|j: int|
                        0 <= j < available_numbers@.len() && available_numbers@[j] == v;
                    assert(e[tile_idx as int].number != Some(available_numbers@[j]));
                    assert(false);
                }
            }
        }
        false
    }

    /// Generate a full board in place: distribute the resources at random,
    /// then place the 18 number tokens by backtracking search over the
    /// shuffled pool. The search is exhaustive, so the result is true
    /// exactly when the resource layout the board ends with admits a
    /// complete valid numbering — whatever order the pool was shuffled
    /// into. On failure every tile is left without a number, so the caller
    /// may retry. Whatever the outcome, the resources on the board form
    /// exactly the fixed pool.
    #[verifier::loop_isolation(false)]
    pub fn generate_valid_board(&mut self) -> (r: bool)
        requires
            old(self).wf(),
            forall|i: int| 0 <= i < 19 ==> (#[trigger] old(self)@[i]).number is None,
        ensures
            final(self).wf(),
            forall|i: int| 0 <= i < 19 ==> (#[trigger] final(self)@[i]).adj == old(self)@[i].adj,
            resources_of(final(self)@).to_multiset() == resource_pool().to_multiset(),
            r ==> (forall|i: int|
                0 <= i < 19 ==> ((#[trigger] final(self)@[i]).resource == Resource::Desert <==> final(self)@[i].number is None)),
            r ==> placed_numbers(final(self)@) == number_pool().to_multiset(),
            r ==> numbers_compatible(final(self)@),
            !r ==> (forall|i: int| 0 <= i < 19 ==> (#[trigger] final(self)@[i]).number is None),
            r == (exists|e: Seq<TileView>| complete_numbering(final(self)@, e)),
    {
        self.distribute_resources();
        let ghost after_distribute = self@;
        proof {
            lemma_resource_pool_desert_count();
            assert(resources_of(after_distribute).contains(Resource::Desert));
            assert forall|i: int| 0 <= i < 19 implies resources_of(after_distribute)[i] == (
            #[trigger] after_distribute[i]).resource by {}
        }
        let ghost di = choose|di: int|
            0 <= di < 19 && after_distribute[di].resource == Resource::Desert;
        let mut desert_index: usize = 0;
        while self.tiles[desert_index].resource != Resource::Desert
            invariant
                desert_index <= di,
            decreases di - desert_index,
        {
            desert_index += 1;
        }
        let mut numbers: Vec<u8> = Vec::new();
        numbers.push(2);
        numbers.push(3);
        numbers.push(3);
        numbers.push(4);
        numbers.push(4);
        numbers.push(5);
        numbers.push(5);
        numbers.push(6);
        numbers.push(6);
        numbers.push(8);
        numbers.push(8);
        numbers.push(9);
        numbers.push(9);
        numbers.push(10);
        numbers.push(10);
        numbers.push(11);
        numbers.push(11);
        numbers.push(12);
        proof {
            assert(numbers@ =~= number_pool());
        }
        shuffle(&mut numbers);
        proof {
            lemma_placed_all_none(after_distribute);
        }
        let result = self.place_numbers_backtracking(0, &numbers, desert_index);
        proof {
            assert forall|i: int| 0 <= i < 19 implies resources_of(self@)[i] == (
            #[trigger] self@[i]).resource by {}
            assert(resources_of(self@) =~= resources_of(after_distribute));
            if result {
                lemma_compat_added_all_none(after_distribute, self@);
                assert forall|i: int|
                    0 <= i < 19 implies ((#[trigger] self@[i]).resource == Resource::Desert <==> self@[i].number is None) by {
                    if i == desert_index as int {
                        assert(self@[i].resource == Resource::Desert);
                        assert(self@[i].number is None);
                    } else {
                        assert(self@[i].number is Some);
                        if self@[i].resource == Resource::Desert {
                            crate::counting::lemma_count_one_unique_index(
                                resources_of(self@),
                                Resource::Desert,
                                desert_index as int,
                                i,
                            );
                        }
                    }
                }
                let pool = numbers@.to_multiset();
                assert(placed_numbers(self@).subset_of(pool)) by {
                    assert forall|v: u8| placed_numbers(self@).count(v) <= pool.count(v) by {
                        assert(placed_numbers(self@).count(v) <= placed_numbers(
                            after_distribute,
                        ).add(pool).count(v));
                    }
                }
                lemma_placed_len_one_none(self@, desert_index as int);
                assert(pool.len() == 18);
                crate::counting::lemma_subset_same_len_equal(placed_numbers(self@), pool);
                assert(complete_numbering(self@, self@));
            } else {
                if exists|e: Seq<TileView>| complete_numbering(self@, e) {
                    let e = choose|e: Seq<TileView>| #[trigger] complete_numbering(self@, e);
                    assert(self@ == after_distribute);
                    assert forall|i: int|
                        0 <= i < 19 && i != desert_index as int implies (#[trigger] e[i]).number is Some by {
                        if e[i].number is None {
                            assert(e[i].resource == Resource::Desert);
                            assert(self@[i].resource == Resource::Desert);
                            crate::counting::lemma_count_one_unique_index(
                                resources_of(self@),
                                Resource::Desert,
                                desert_index as int,
                                i,
                            );
                        }
                    }
                    assert(e[desert_index as int].resource == Resource::Desert);
                    assert(e[desert_index as int].number is None);
                    lemma_placed_all_none(self@);
                    assert forall|w: u8|
                        placed_numbers(e).count(w) <= placed_numbers(self@).add(
                            numbers@.to_multiset(),
                        ).count(w) by {
                        assert(placed_numbers(e).count(w) == number_pool().to_multiset().count(w));
                    }
                    lemma_compat_added_from_full(self@, e);
                    assert(valid_extension(self@, e, 0, desert_index as int, numbers@));
                    assert(false);
                }
            }
        }
        result
    }
}

} // verus!
