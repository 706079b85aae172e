//! The fixed adjacency relation of the 19-tile hexagonal layout (row widths
//! 3, 4, 5, 4, 3, indices assigned row-major), and its proved properties:
//! the relation is symmetric, irreflexive, and every tile has between 3 and
//! 6 neighbors.

use vstd::prelude::*;

verus! {

/// Neighbor indices of each of the 19 tiles, in the fixed hexagonal layout.
pub open spec fn spec_adjacency() -> Seq<Seq<int>> {
    seq![
        seq![1, 3, 4],
        seq![0, 2, 4, 5],
        seq![1, 5, 6],
        seq![0, 4, 7, 8],
        seq![0, 1, 3, 5, 8, 9],
        seq![1, 2, 4, 6, 9, 10],
        seq![2, 5, 10, 11],
        seq![3, 8, 12],
        seq![3, 4, 7, 9, 12, 13],
        seq![4, 5, 8, 10, 13, 14],
        seq![5, 6, 9, 11, 14, 15],
        seq![6, 10, 15],
        seq![7, 8, 13, 16],
        seq![8, 9, 12, 14, 16, 17],
        seq![9, 10, 13, 15, 17, 18],
        seq![10, 11, 14, 18],
        seq![12, 13, 17],
        seq![13, 14, 16, 18],
        seq![14, 15, 17],
    ]
}

/// The adjacency map lists 19 tiles; every listed neighbor is a valid tile
/// index; no tile lists itself; the relation is symmetric; and each tile has
/// between 3 and 6 neighbors.
pub proof fn lemma_adjacency_properties()
    ensures
        spec_adjacency().len() == 19,
        forall|i: int, k: int|
            0 <= i < 19 && 0 <= k < spec_adjacency()[i].len() ==> 0 <= #[trigger] spec_adjacency(
            )[i][k] < 19,
        forall|i: int| 0 <= i < 19 ==> 3 <= #[trigger] spec_adjacency()[i].len() <= 6,
        forall|i: int| 0 <= i < 19 ==> !(#[trigger] spec_adjacency()[i].contains(i)),
        forall|i: int, j: int|
            0 <= i < 19 && 0 <= j < 19 && #[trigger] spec_adjacency()[i].contains(j)
                ==> spec_adjacency()[j].contains(i),
{
    let a = spec_adjacency();
    assert forall|i: int, k: int| 0 <= i < 19 && 0 <= k < a[i].len() implies 0 <= #[trigger] a[i][k]
        < 19 by {
        lemma_each_edge_reversed(i, k);
    }
    assert forall|i: int| 0 <= i < 19 implies 3 <= #[trigger] a[i].len() <= 6 by {
        if i == 0 {
            assert(a[0].len() == 3);
        } else if i == 1 {
            assert(a[1].len() == 4);
        } else if i == 2 {
            assert(a[2].len() == 3);
        } else if i == 3 {
            assert(a[3].len() == 4);
        } else if i == 4 {
            assert(a[4].len() == 6);
        } else if i == 5 {
            assert(a[5].len() == 6);
        } else if i == 6 {
            assert(a[6].len() == 4);
        } else if i == 7 {
            assert(a[7].len() == 3);
        } else if i == 8 {
            assert(a[8].len() == 6);
        } else if i == 9 {
            assert(a[9].len() == 6);
        } else if i == 10 {
            assert(a[10].len() == 6);
        } else if i == 11 {
            assert(a[11].len() == 3);
        } else if i == 12 {
            assert(a[12].len() == 4);
        } else if i == 13 {
            assert(a[13].len() == 6);
        } else if i == 14 {
            assert(a[14].len() == 6);
        } else if i == 15 {
            assert(a[15].len() == 4);
        } else if i == 16 {
            assert(a[16].len() == 3);
        } else if i == 17 {
            assert(a[17].len() == 4);
        } else {
            assert(a[18].len() == 3);
        }
    }
    assert forall|i: int, j: int| 0 <= i < 19 && 0 <= j < 19 && #[trigger] a[i].contains(j)
        implies a[j].contains(i) by {
        let k = choose|k: int| 0 <= k < a[i].len() && a[i][k] == j;
        lemma_each_edge_reversed(i, k);
    }
    assert forall|i: int| 0 <= i < 19 implies !(#[trigger] a[i].contains(i)) by {
        if a[i].contains(i) {
            let k = choose|k: int| 0 <= k < a[i].len() && a[i][k] == i;
            lemma_each_edge_reversed(i, k);
        }
    }
}

/// The reverse of each listed edge is listed too: for tile `i` and position
/// `k` in its neighbor list, tile `spec_adjacency()[i][k]` lists `i`.
proof fn lemma_each_edge_reversed(i: int, k: int)
    requires
        0 <= i < 19,
        0 <= k < spec_adjacency()[i].len(),
    ensures
        0 <= spec_adjacency()[i][k] < 19,
        spec_adjacency()[i][k] != i,
        spec_adjacency()[spec_adjacency()[i][k]].contains(i),
{
    let a = spec_adjacency();
    let j = a[i][k];
    if i == 0 {
        assert(a[1][0] == 0 && a[3][0] == 0 && a[4][0] == 0);
    } else if i == 1 {
        assert(a[0][0] == 1 && a[2][0] == 1 && a[4][1] == 1 && a[5][0] == 1);
    } else if i == 2 {
        assert(a[1][1] == 2 && a[5][1] == 2 && a[6][0] == 2);
    } else if i == 3 {
        assert(a[0][1] == 3 && a[4][2] == 3 && a[7][0] == 3 && a[8][0] == 3);
    } else if i == 4 {
        assert(a[0][2] == 4 && a[1][2] == 4 && a[3][1] == 4 && a[5][2] == 4 && a[8][1] == 4
            && a[9][0] == 4);
    } else if i == 5 {
        assert(a[1][3] == 5 && a[2][1] == 5 && a[4][3] == 5 && a[6][1] == 5 && a[9][1] == 5
            && a[10][0] == 5);
    } else if i == 6 {
        assert(a[2][2] == 6 && a[5][3] == 6 && a[10][1] == 6 && a[11][0] == 6);
    } else if i == 7 {
        assert(a[3][2] == 7 && a[8][2] == 7 && a[12][0] == 7);
    } else if i == 8 {
        assert(a[3][3] == 8 && a[4][4] == 8 && a[7][1] == 8 && a[9][2] == 8 && a[12][1] == 8
            && a[13][0] == 8);
    } else if i == 9 {
        assert(a[4][5] == 9 && a[5][4] == 9 && a[8][3] == 9 && a[10][2] == 9 && a[13][1] == 9
            && a[14][0] == 9);
    } else if i == 10 {
        assert(a[5][5] == 10 && a[6][2] == 10 && a[9][3] == 10 && a[11][1] == 10 && a[14][1] == 10
            && a[15][0] == 10);
    } else if i == 11 {
        assert(a[6][3] == 11 && a[10][3] == 11 && a[15][1] == 11);
    } else if i == 12 {
        assert(a[7][2] == 12 && a[8][4] == 12 && a[13][2] == 12 && a[16][0] == 12);
    } else if i == 13 {
        assert(a[8][5] == 13 && a[9][4] == 13 && a[12][2] == 13 && a[14][2] == 13 && a[16][1] == 13
            && a[17][0] == 13);
    } else if i == 14 {
        assert(a[9][5] == 14 && a[10][4] == 14 && a[13][3] == 14 && a[15][2] == 14 && a[17][1] == 14
            && a[18][0] == 14);
    } else if i == 15 {
        assert(a[10][5] == 15 && a[11][2] == 15 && a[14][3] == 15 && a[18][1] == 15);
    } else if i == 16 {
        assert(a[12][3] == 16 && a[13][4] == 16 && a[17][2] == 16);
    } else if i == 17 {
        assert(a[13][5] == 17 && a[14][4] == 17 && a[16][2] == 17 && a[18][2] == 17);
    } else {
        assert(a[14][5] == 18 && a[15][3] == 18 && a[17][3] == 18);
    }
}

} // verus!
