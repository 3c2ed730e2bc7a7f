//! Which tiles a folder has.
use vstd::prelude::*;
use crate::candidate_laws::ranking_names_each_folder_once;
use crate::rank::{folder_tiles, ranked, ranking_orders_by_size, tile_keys, tiles_by_size, unsorted_tiles, with_size, Tile, TileKind};
use crate::sort::{sorted_pairs, sorting_orders_the_pairs};
use crate::tree::{children_of, shaped, NodeView};

verus! {

/// Whether folder `id` lies directly in `parent` and has a size.
pub open spec fn is_sized_child(tree: Seq<NodeView>, id: int, parent: int) -> bool {
    0 <= id < tree.len() && tree[id].parent == Some(parent as usize) && tree[id].bytes > 0
}

/// How many of the first `n` folders are such.
pub open spec fn sized_children(tree: Seq<NodeView>, parent: int, n: int) -> int
    decreases n,
{
    if n <= 0 {
        0
    } else {
        sized_children(tree, parent, n - 1) + if is_sized_child(tree, n - 1, parent) {
            1int
        } else {
            0
        }
    }
}

proof fn sorting_keeps_the_tiles(tiles: Seq<Tile>, tile: Tile)
    requires
        tiles.len() <= u64::MAX,
    ensures
        tiles_by_size(tiles).contains(tile) <==> tiles.contains(tile),
{
    let keys = tile_keys(tiles);
    let sorted = sorted_pairs(keys);
    sorting_orders_the_pairs(keys);
    let r = tiles_by_size(tiles);
    if r.contains(tile) {
        let k = choose|k: int| 0 <= k < r.len() && r[k] == tile;
        assert(sorted.contains(sorted[k]));
        let m = choose|m: int| 0 <= m < keys.len() && keys[m] == sorted[k];
        assert(tiles[m] == tile);
    }
    if tiles.contains(tile) {
        let m = choose|m: int| 0 <= m < tiles.len() && tiles[m] == tile;
        assert(keys.contains(keys[m]));
        assert(sorted.contains(keys[m]));
        let k = choose|k: int| 0 <= k < sorted.len() && sorted[k] == keys[m];
        assert(r[k] == tile);
    }
}

proof fn sized_children_are_found(tree: Seq<NodeView>, parent: int, n: int)
    requires
        0 <= n <= tree.len() <= usize::MAX,
    ensures
        ({
            let children = children_of(tree, parent, n);
            let sized = with_size(tree, children, children.len() as int);
            &&& sized.len() == sized_children(tree, parent, n)
            &&& forall|k: int| 0 <= k < sized.len() ==> (#[trigger] sized[k]) < n
            &&& forall|i: int, j: int| 0 <= i < j < sized.len() ==> sized[i] < sized[j]
            &&& forall|id: usize|
                id < n ==> (#[trigger] sized.contains(id) <==> is_sized_child(
                    tree,
                    id as int,
                    parent,
                ))
        }),
    decreases n,
{
    if n > 0 {
        sized_children_are_found(tree, parent, n - 1);
        let before = children_of(tree, parent, n - 1);
        let rest = with_size(tree, before, before.len() as int);
        let children = children_of(tree, parent, n);
        let sized = with_size(tree, children, children.len() as int);
        let last = (n - 1) as usize;
        if tree[n - 1].parent == Some(parent as usize) {
            assert(children == before.push(last));
            sizes_of_more(tree, before, last, before.len() as int);
        }
        assert(sized == if is_sized_child(tree, n - 1, parent) {
            rest.push(last)
        } else {
            rest
        });
        assert forall|id: usize| id < n implies (#[trigger] sized.contains(id) <==> is_sized_child(
            tree,
            id as int,
            parent,
        )) by {
            if sized == rest.push(last) {
                assert(sized[rest.len() as int] == last);
                if rest.contains(id) {
                    let k = choose|k: int| 0 <= k < rest.len() && rest[k] == id;
                    assert(sized[k] == id);
                }
            }
            if id < n - 1 {
                assert(rest.contains(id) <==> is_sized_child(tree, id as int, parent));
            }
        }
    }
}

proof fn sizes_of_more(tree: Seq<NodeView>, ids: Seq<usize>, more: usize, n: int)
    requires
        0 <= n <= ids.len(),
    ensures
        with_size(tree, ids.push(more), n) == with_size(tree, ids, n),
    decreases n,
{
    if n > 0 {
        sizes_of_more(tree, ids, more, n - 1);
    }
}

/// The tile of a folder.
pub open spec fn tile_of(tree: Seq<NodeView>, id: usize) -> Tile {
    Tile { kind: TileKind::Folder(id), bytes: tree[id as int].bytes }
}

/// A folder has a tile for each subfolder with a size, with that size; of more than one
/// hundred, for the hundred largest, and one for the others together. Its direct files
/// have a tile where they have a size. There is no other tile.
pub proof fn tiles_are_those_of_the_subfolders(tree: Seq<NodeView>, parent: int)
    requires
        shaped(tree),
        0 <= parent < tree.len(),
    ensures
        ({
            let tiles = tiles_by_size(unsorted_tiles(tree, parent));
            let many = sized_children(tree, parent, tree.len() as int) > 100;
            &&& forall|k: int|
                0 <= k < tiles.len() ==> match (#[trigger] tiles[k]).kind {
                    TileKind::Folder(id) => is_sized_child(tree, id as int, parent) && tiles[k]
                        == tile_of(tree, id),
                    TileKind::Others => many,
                    TileKind::DirectFiles => tiles[k].bytes == tree[parent].own_bytes
                        && tiles[k].bytes > 0,
                }
            &&& forall|id: usize| #[trigger]
                is_sized_child(tree, id as int, parent) && !many ==> tiles.contains(
                    tile_of(tree, id),
                )
            &&& forall|id: usize, other: usize|
                #![trigger is_sized_child(tree, id as int, parent), tile_of(tree, other)]
                is_sized_child(tree, id as int, parent) && !tiles.contains(tile_of(tree, id))
                    && tiles.contains(tile_of(tree, other)) ==> tree[other as int].bytes
                    >= tree[id as int].bytes
            &&& tree[parent].own_bytes > 0 ==> tiles.contains(
                Tile { kind: TileKind::DirectFiles, bytes: tree[parent].own_bytes },
            )
            &&& tiles.len() == (if many {
                101
            } else {
                sized_children(tree, parent, tree.len() as int)
            }) + (if tree[parent].own_bytes > 0 {
                1int
            } else {
                0
            })
        }),
{
    let n = tree.len() as int;
    let children = tree[parent].children;
    assert(children == children_of(tree, parent, n));
    let sized = with_size(tree, children, children.len() as int);
    let ids = ranked(tree, sized);
    sized_children_are_found(tree, parent, n);
    ranking_orders_by_size(tree, sized);
    assert(sized.no_duplicates());
    ranking_names_each_folder_once(tree, sized);
    let many = ids.len() > 100;
    let top = if many {
        ids.take(100)
    } else {
        ids
    };
    let shown = folder_tiles(tree, top);
    let unsorted = unsorted_tiles(tree, parent);
    let tiles = tiles_by_size(unsorted);
    sorting_orders_the_pairs(tile_keys(unsorted));
    assert forall|k: int| 0 <= k < ids.len() implies is_sized_child(
        tree,
        (#[trigger] ids[k]) as int,
        parent,
    ) by {
        assert(ids.contains(ids[k]));
        assert(sized.contains(ids[k]));
        let m = choose|m: int| 0 <= m < sized.len() && sized[m] == ids[k];
        assert(sized[m] < n);
    }
    assert forall|k: int| 0 <= k < shown.len() implies #[trigger] unsorted[k] == shown[k] by {}
    assert forall|k: int| 0 <= k < top.len() implies #[trigger] top[k] == ids[k] by {}
    assert forall|k: int| 0 <= k < tiles.len() implies match (#[trigger] tiles[k]).kind {
        TileKind::Folder(id) => is_sized_child(tree, id as int, parent) && tiles[k] == tile_of(
            tree,
            id,
        ),
        TileKind::Others => many,
        TileKind::DirectFiles => tiles[k].bytes == tree[parent].own_bytes && tiles[k].bytes > 0,
    } by {
        sorting_keeps_the_tiles(unsorted, tiles[k]);
        assert(tiles.contains(tiles[k]));
        let m = choose|m: int| 0 <= m < unsorted.len() && unsorted[m] == tiles[k];
        if m < shown.len() {
            assert(unsorted[m] == shown[m]);
            assert(top[m] == ids[m]);
        }
    }
    assert forall|id: usize| #[trigger] is_sized_child(tree, id as int, parent) implies (
    tiles.contains(tile_of(tree, id)) <==> top.contains(id)) by {
        sorting_keeps_the_tiles(unsorted, tile_of(tree, id));
        if top.contains(id) {
            let k = choose|k: int| 0 <= k < top.len() && top[k] == id;
            assert(unsorted[k] == shown[k]);
            assert(shown[k] == tile_of(tree, id));
        }
        if unsorted.contains(tile_of(tree, id)) {
            let m = choose|m: int| 0 <= m < unsorted.len() && unsorted[m] == tile_of(tree, id);
            if m < shown.len() {
                assert(unsorted[m] == shown[m]);
                assert(top[m] == id);
            }
        }
    }
    assert forall|id: usize| #[trigger] is_sized_child(tree, id as int, parent) implies ids.contains(
        id,
    ) by {
        assert(sized.contains(id));
    }
    assert forall|id: usize, other: usize|
        #![trigger is_sized_child(tree, id as int, parent), tile_of(tree, other)]
        is_sized_child(tree, id as int, parent) && !tiles.contains(tile_of(tree, id))
            && tiles.contains(tile_of(tree, other)) implies tree[other as int].bytes
        >= tree[id as int].bytes by {
        let k = choose|k: int| 0 <= k < tiles.len() && tiles[k] == tile_of(tree, other);
        assert(tiles[k].kind is Folder);
        assert(is_sized_child(tree, other as int, parent));
        assert(top.contains(other) && !top.contains(id) && ids.contains(id));
        let i = choose|i: int| 0 <= i < top.len() && top[i] == other;
        let j = choose|j: int| 0 <= j < ids.len() && ids[j] == id;
        if j < top.len() {
            assert(top[j] == id);
        }
        assert(tree[ids[i] as int].bytes >= tree[ids[j] as int].bytes);
    }
    if tree[parent].own_bytes > 0 {
        let direct = Tile { kind: TileKind::DirectFiles, bytes: tree[parent].own_bytes };
        sorting_keeps_the_tiles(unsorted, direct);
        assert(unsorted[unsorted.len() - 1] == direct);
    }
}

} // verus!
