//! What holds of the tiles of every folder.
use vstd::prelude::*;
use crate::rank::{folder_tiles, ranked, ranking_orders_by_size, size_keys, tile_keys, tiles_by_size, total_size, unsorted_tiles, with_size, Tile, MAX_TILES};
use crate::sort::{pair_le, sorted_pairs, sorting_orders_the_pairs};
use crate::tree::{children_of, saturated, shaped, sizes_add_up, subfolder_totals, NodeView};

verus! {

/// The size of tiles together.
pub open spec fn tile_bytes(tiles: Seq<Tile>) -> nat
    decreases tiles.len(),
{
    if tiles.len() == 0 {
        0
    } else {
        tile_bytes(tiles.drop_last()) + tiles.last().bytes as nat
    }
}

/// The size that a sorting key stands for.
spec fn key_bytes(key: (u64, u64)) -> nat {
    (u64::MAX - key.0) as nat
}

spec fn keys_bytes(keys: Seq<(u64, u64)>) -> nat
    decreases keys.len(),
{
    if keys.len() == 0 {
        0
    } else {
        keys_bytes(keys.drop_last()) + key_bytes(keys.last())
    }
}

proof fn folding_adds_up(keys: Seq<(u64, u64)>, start: nat)
    ensures
        keys.fold_right(|key: (u64, u64), sum: nat| sum + key_bytes(key), start) == keys_bytes(keys)
            + start,
    decreases keys.len(),
{
    if keys.len() > 0 {
        folding_adds_up(keys.drop_last(), start + key_bytes(keys.last()));
    }
}

proof fn sorting_keeps_the_sum(keys: Seq<(u64, u64)>)
    ensures
        keys_bytes(sorted_pairs(keys)) == keys_bytes(keys),
{
    let f = |key: (u64, u64), sum: nat| sum + key_bytes(key);
    sorting_orders_the_pairs(keys);
    assert(vstd::seq_lib::commutative_foldr(f));
    vstd::seq_lib::lemma_fold_right_permutation(sorted_pairs(keys), keys, f, 0);
    folding_adds_up(keys, 0);
    folding_adds_up(sorted_pairs(keys), 0);
}

proof fn tiles_have_the_size_of_their_keys(tiles: Seq<Tile>, keys: Seq<(u64, u64)>)
    requires
        tiles.len() == keys.len(),
        forall|k: int| 0 <= k < tiles.len() ==> (#[trigger] tiles[k]).bytes == key_bytes(keys[k]),
    ensures
        tile_bytes(tiles) == keys_bytes(keys),
    decreases tiles.len(),
{
    if tiles.len() > 0 {
        assert forall|k: int| 0 <= k < tiles.len() - 1 implies (
        #[trigger] tiles.drop_last()[k]).bytes == key_bytes(keys.drop_last()[k]) by {
            assert(tiles[k].bytes == key_bytes(keys[k]));
        }
        tiles_have_the_size_of_their_keys(tiles.drop_last(), keys.drop_last());
    }
}

proof fn folders_have_the_size_of_their_keys(
    tree: Seq<NodeView>,
    ids: Seq<usize>,
    keys: Seq<(u64, u64)>,
)
    requires
        ids.len() == keys.len(),
        forall|k: int|
            0 <= k < ids.len() ==> tree[(#[trigger] ids[k]) as int].bytes == key_bytes(keys[k]),
    ensures
        total_size(tree, ids) == keys_bytes(keys),
    decreases ids.len(),
{
    if ids.len() > 0 {
        assert forall|k: int| 0 <= k < ids.len() - 1 implies tree[(
        #[trigger] ids.drop_last()[k]) as int].bytes == key_bytes(keys.drop_last()[k]) by {
            assert(tree[ids[k] as int].bytes == key_bytes(keys[k]));
        }
        folders_have_the_size_of_their_keys(tree, ids.drop_last(), keys.drop_last());
    }
}

/// Sorting tiles changes neither their number nor their size together, and
/// puts no smaller one before a larger one.
proof fn sorted_tiles(tiles: Seq<Tile>)
    requires
        tiles.len() <= u64::MAX,
    ensures
        tiles_by_size(tiles).len() == tiles.len(),
        tile_bytes(tiles_by_size(tiles)) == tile_bytes(tiles),
        forall|k: int| 0 <= k < tiles.len() ==> tiles.contains(#[trigger] tiles_by_size(tiles)[k]),
        forall|i: int, j: int|
            0 <= i <= j < tiles.len() ==> (#[trigger] tiles_by_size(tiles)[i]).bytes >= (
            #[trigger] tiles_by_size(tiles)[j]).bytes,
{
    let keys = tile_keys(tiles);
    let sorted = sorted_pairs(keys);
    let r = tiles_by_size(tiles);
    sorting_orders_the_pairs(keys);
    sorting_keeps_the_sum(keys);
    assert forall|k: int| 0 <= k < r.len() implies tiles.contains(#[trigger] r[k]) && r[k].bytes
        == key_bytes(sorted[k]) by {
        assert(sorted.contains(sorted[k]));
        let m = choose|m: int| 0 <= m < keys.len() && keys[m] == sorted[k];
        assert(keys[m] == ((u64::MAX - tiles[m].bytes) as u64, m as u64));
        assert(r[k] == tiles[m]);
    }
    tiles_have_the_size_of_their_keys(r, sorted);
    tiles_have_the_size_of_their_keys(tiles, keys);
    assert forall|i: int, j: int| 0 <= i <= j < r.len() implies (#[trigger] r[i]).bytes >= (
    #[trigger] r[j]).bytes by {
        assert(pair_le(sorted[i], sorted[j]));
        assert(r[i].bytes == key_bytes(sorted[i]) && r[j].bytes == key_bytes(sorted[j]));
    }
}

proof fn ranking_keeps_the_size(tree: Seq<NodeView>, ids: Seq<usize>)
    ensures
        total_size(tree, ranked(tree, ids)) == total_size(tree, ids),
{
    let keys = size_keys(tree, ids);
    let sorted = sorted_pairs(keys);
    let r = ranked(tree, ids);
    sorting_orders_the_pairs(keys);
    sorting_keeps_the_sum(keys);
    assert forall|k: int| 0 <= k < r.len() implies tree[(#[trigger] r[k]) as int].bytes == key_bytes(
        sorted[k],
    ) by {
        assert(sorted.contains(sorted[k]));
        let m = choose|m: int| 0 <= m < keys.len() && keys[m] == sorted[k];
        assert(keys[m] == ((u64::MAX - tree[ids[m] as int].bytes) as u64, ids[m] as u64));
    }
    folders_have_the_size_of_their_keys(tree, r, sorted);
    folders_have_the_size_of_their_keys(tree, ids, keys);
}

proof fn empty_folders_add_nothing(tree: Seq<NodeView>, ids: Seq<usize>, n: int)
    requires
        0 <= n <= ids.len(),
    ensures
        total_size(tree, with_size(tree, ids, n)) == total_size(tree, ids.take(n)),
        forall|k: int|
            0 <= k < with_size(tree, ids, n).len() ==> tree[(
            #[trigger] with_size(tree, ids, n)[k]) as int].bytes > 0,
    decreases n,
{
    if n > 0 {
        empty_folders_add_nothing(tree, ids, n - 1);
        assert(ids.take(n).drop_last() =~= ids.take(n - 1));
        let rest = with_size(tree, ids, n - 1);
        let all = with_size(tree, ids, n);
        if tree[ids[n - 1] as int].bytes > 0 {
            assert(all.drop_last() =~= rest);
            assert forall|k: int| 0 <= k < all.len() implies tree[(
            #[trigger] all[k]) as int].bytes > 0 by {
                if k < rest.len() {
                    assert(all[k] == rest[k]);
                }
            }
        }
    } else {
        assert(ids.take(0).len() == 0);
    }
}

proof fn sizes_split(tree: Seq<NodeView>, ids: Seq<usize>, n: int)
    requires
        0 <= n <= ids.len(),
    ensures
        total_size(tree, ids) == total_size(tree, ids.take(n)) + total_size(tree, ids.skip(n)),
    decreases ids.len() - n,
{
    if n == ids.len() {
        assert(ids.take(n) =~= ids);
        assert(ids.skip(n).len() == 0);
    } else {
        let rest = ids.drop_last();
        sizes_split(tree, rest, n);
        assert(rest.take(n) =~= ids.take(n));
        assert(ids.skip(n).drop_last() =~= rest.skip(n));
        assert(ids.skip(n).last() == ids.last());
    }
}

proof fn folder_tiles_show_their_folders(tree: Seq<NodeView>, ids: Seq<usize>)
    ensures
        tile_bytes(folder_tiles(tree, ids)) == total_size(tree, ids),
    decreases ids.len(),
{
    if ids.len() > 0 {
        folder_tiles_show_their_folders(tree, ids.drop_last());
        assert(folder_tiles(tree, ids).drop_last() =~= folder_tiles(tree, ids.drop_last()));
    }
}

proof fn subfolders_have_their_size(tree: Seq<NodeView>, p: int, n: int)
    requires
        0 <= n <= tree.len() <= usize::MAX,
    ensures
        subfolder_totals(tree, p, 0).bytes == saturated(
            total_size(tree, children_of(tree, p, n)) + subfolder_totals(tree, p, n).bytes,
        ),
    decreases n,
{
    if n > 0 {
        subfolders_have_their_size(tree, p, n - 1);
        let rest = children_of(tree, p, n - 1);
        let all = children_of(tree, p, n);
        if tree[n - 1].parent == Some(p as usize) {
            assert(all.drop_last() =~= rest);
        }
    }
}

proof fn tile_sum_of_one_more(tiles: Seq<Tile>, tile: Tile)
    ensures
        tile_bytes(tiles.push(tile)) == tile_bytes(tiles) + tile.bytes,
{
    assert(tiles.push(tile).drop_last() =~= tiles);
}

/// The tiles of a folder show every byte in it. There are at most a hundred for
/// subfolders, one for all further subfolders and one for the direct files; none
/// is empty, and larger ones come first.
pub proof fn tiles_show_every_byte(tree: Seq<NodeView>, parent: int)
    requires
        shaped(tree),
        sizes_add_up(tree),
        0 <= parent < tree.len(),
    ensures
        ({
            let tiles = tiles_by_size(unsorted_tiles(tree, parent));
            &&& tree[parent].bytes == saturated(tile_bytes(tiles) as int)
            &&& tiles.len() <= MAX_TILES + 2
            &&& forall|k: int| 0 <= k < tiles.len() ==> (#[trigger] tiles[k]).bytes > 0
            &&& forall|i: int, j: int|
                0 <= i <= j < tiles.len() ==> (#[trigger] tiles[i]).bytes >= (
                #[trigger] tiles[j]).bytes
        }),
{
    let children = tree[parent].children;
    let sized = with_size(tree, children, children.len() as int);
    let ids = ranked(tree, sized);
    let unsorted = unsorted_tiles(tree, parent);
    let max = MAX_TILES as int;
    let top = if ids.len() > max {
        ids.take(max)
    } else {
        ids
    };
    let shown = folder_tiles(tree, top);
    empty_folders_add_nothing(tree, children, children.len() as int);
    assert(children.take(children.len() as int) =~= children);
    ranking_keeps_the_size(tree, sized);
    ranking_orders_by_size(tree, sized);
    assert forall|k: int| 0 <= k < ids.len() implies tree[(#[trigger] ids[k]) as int].bytes > 0 by {
        assert(ids.contains(ids[k]));
        let m = choose|m: int| 0 <= m < sized.len() && sized[m] == ids[k];
        assert(tree[sized[m] as int].bytes > 0);
    }
    assert forall|k: int| 0 <= k < shown.len() implies (#[trigger] shown[k]).bytes > 0 by {
        assert(top[k] == ids[k]);
    }
    folder_tiles_show_their_folders(tree, top);
    let below = if ids.len() > max {
        sizes_split(tree, ids, max);
        let others = ids.skip(max);
        assert(others.last() == ids[ids.len() - 1]);
        assert(total_size(tree, others) > 0);
        let tile = Tile {
            kind: crate::rank::TileKind::Others,
            bytes: saturated(total_size(tree, others) as int),
        };
        tile_sum_of_one_more(shown, tile);
        shown.push(tile)
    } else {
        shown
    };
    let direct = Tile {
        kind: crate::rank::TileKind::DirectFiles,
        bytes: tree[parent].own_bytes,
    };
    tile_sum_of_one_more(below, direct);
    subfolders_have_their_size(tree, parent, tree.len() as int);
    assert(tree[parent].children == children_of(tree, parent, tree.len() as int));
    assert(subfolder_totals(tree, parent, tree.len() as int).bytes == 0);
    sorted_tiles(unsorted);
    let tiles = tiles_by_size(unsorted);
    assert forall|k: int| 0 <= k < unsorted.len() implies (#[trigger] unsorted[k]).bytes > 0 by {
        if k < shown.len() {
            assert(unsorted[k] == shown[k]);
        }
    }
    assert forall|k: int| 0 <= k < tiles.len() implies (#[trigger] tiles[k]).bytes > 0 by {
        assert(unsorted.contains(tiles[k]));
    }
    assert(tree[parent].bytes == saturated(
        tree[parent].own_bytes + subfolder_totals(tree, parent, 0).bytes,
    ));
}

} // verus!
