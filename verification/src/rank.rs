//! Folders by size, and the tiles of a map.
use vstd::prelude::*;
use crate::sort::{pair_le, sort_pairs, sorted_pairs, sorting_orders_the_pairs};
use crate::tree::{saturated, tree_of, Node, NodeView};

verus! {

/// What folders are sorted by: larger ones first, then as they stand.
pub open spec fn size_keys(tree: Seq<NodeView>, ids: Seq<usize>) -> Seq<(u64, u64)> {
    Seq::new(
        ids.len(),
        |k: int| ((u64::MAX - tree[ids[k] as int].bytes) as u64, ids[k] as u64),
    )
}

/// Folders by size, larger ones first.
pub open spec fn ranked(tree: Seq<NodeView>, ids: Seq<usize>) -> Seq<usize> {
    let sorted = sorted_pairs(size_keys(tree, ids));
    Seq::new(sorted.len(), |k: int| sorted[k].1 as usize)
}

/// Ranking keeps the folders and puts no smaller one before a larger one.
pub proof fn ranking_orders_by_size(tree: Seq<NodeView>, ids: Seq<usize>)
    ensures
        ranked(tree, ids).len() == ids.len(),
        forall|id: usize| #[trigger] ranked(tree, ids).contains(id) <==> ids.contains(id),
        forall|i: int, j: int|
            0 <= i <= j < ids.len() ==> tree[#[trigger] ranked(tree, ids)[i] as int].bytes
                >= tree[#[trigger] ranked(tree, ids)[j] as int].bytes,
{
    let keys = size_keys(tree, ids);
    let sorted = sorted_pairs(keys);
    let r = ranked(tree, ids);
    sorting_orders_the_pairs(keys);
    assert forall|k: int| 0 <= k < sorted.len() implies exists|m: int|
        0 <= m < ids.len() && keys[m] == #[trigger] sorted[k] by {
        assert(sorted.contains(sorted[k]));
        assert(keys.contains(sorted[k]));
    }
    assert forall|id: usize| #[trigger] r.contains(id) <==> ids.contains(id) by {
        if r.contains(id) {
            let k = choose|k: int| 0 <= k < r.len() && r[k] == id;
            let m = choose|m: int| 0 <= m < ids.len() && keys[m] == sorted[k];
            assert(ids[m] == id);
        }
        if ids.contains(id) {
            let m = choose|m: int| 0 <= m < ids.len() && ids[m] == id;
            assert(keys.contains(keys[m]));
            assert(sorted.contains(keys[m]));
            let k = choose|k: int| 0 <= k < sorted.len() && sorted[k] == keys[m];
            assert(r[k] == id);
        }
    }
    assert forall|i: int, j: int| 0 <= i <= j < ids.len() implies tree[#[trigger] r[i] as int].bytes
        >= tree[#[trigger] r[j] as int].bytes by {
        assert(pair_le(sorted[i], sorted[j]));
        let a = choose|m: int| 0 <= m < ids.len() && keys[m] == sorted[i];
        let b = choose|m: int| 0 <= m < ids.len() && keys[m] == sorted[j];
        assert(ids[a] == r[i] && ids[b] == r[j]);
    }
}

/// Folders by size, larger ones first.
pub fn rank(nodes: &Vec<Node>, ids: &Vec<usize>) -> (r: Vec<usize>)
    requires
        forall|k: int| 0 <= k < ids@.len() ==> (#[trigger] ids@[k]) < nodes@.len(),
    ensures
        r@ == ranked(tree_of(nodes@), ids@),
        r@.len() == ids@.len(),
        forall|k: int| 0 <= k < r@.len() ==> (#[trigger] r@[k]) < nodes@.len(),
{
    let ghost tree = tree_of(nodes@);
    let ghost keys = size_keys(tree, ids@);
    let mut pairs: Vec<(u64, u64)> = Vec::new();
    let mut i: usize = 0;
    while i < ids.len()
        invariant
            i <= ids@.len(),
            tree == tree_of(nodes@),
            keys == size_keys(tree, ids@),
            forall|k: int| 0 <= k < ids@.len() ==> (#[trigger] ids@[k]) < nodes@.len(),
            pairs@ == keys.take(i as int),
        decreases ids@.len() - i,
    {
        let id: usize = ids[i];
        assert(tree[id as int] == nodes@[id as int]@);
        pairs.push((u64::MAX - nodes[id].bytes, id as u64));
        i += 1;
        assert(pairs@ =~= keys.take(i as int));
    }
    assert(pairs@ =~= keys);
    let sorted = sort_pairs(&pairs);
    let mut r: Vec<usize> = Vec::new();
    let mut i: usize = 0;
    while i < sorted.len()
        invariant
            i <= sorted@.len(),
            r@.len() == i,
            forall|k: int| 0 <= k < i ==> #[trigger] r@[k] == sorted@[k].1 as usize,
        decreases sorted@.len() - i,
    {
        r.push(sorted[i].1 as usize);
        i += 1;
    }
    assert(r@ =~= ranked(tree, ids@));
    proof {
        ranking_orders_by_size(tree, ids@);
        assert forall|k: int| 0 <= k < r@.len() implies (#[trigger] r@[k]) < nodes@.len() by {
            assert(ranked(tree, ids@).contains(r@[k]));
            let m = choose|m: int| 0 <= m < ids@.len() && ids@[m] == r@[k];
            assert(ids@[m] < nodes@.len());
        }
    }
    r
}

/// What a tile of a map stands for.
#[derive(Clone, Copy, Debug, PartialEq, Eq, Structural)]
pub enum TileKind {
    Folder(usize),
    Others,
    DirectFiles,
}

/// A tile of a map.
#[derive(Clone, Copy, Debug, PartialEq, Eq, Structural)]
pub struct Tile {
    pub kind: TileKind,
    pub bytes: u64,
}

/// How many folders get a tile of their own.
pub const MAX_TILES: usize = 100;

/// Those of the first `n` folders that have a size.
pub open spec fn with_size(tree: Seq<NodeView>, ids: Seq<usize>, n: int) -> Seq<usize>
    decreases n,
{
    if n <= 0 {
        seq![]
    } else if tree[ids[n - 1] as int].bytes > 0 {
        with_size(tree, ids, n - 1).push(ids[n - 1])
    } else {
        with_size(tree, ids, n - 1)
    }
}

/// The size of folders together.
pub open spec fn total_size(tree: Seq<NodeView>, ids: Seq<usize>) -> nat
    decreases ids.len(),
{
    if ids.len() == 0 {
        0
    } else {
        total_size(tree, ids.drop_last()) + tree[ids.last() as int].bytes as nat
    }
}

/// A tile for each folder.
pub open spec fn folder_tiles(tree: Seq<NodeView>, ids: Seq<usize>) -> Seq<Tile> {
    Seq::new(
        ids.len(),
        |k: int| Tile { kind: TileKind::Folder(ids[k]), bytes: tree[ids[k] as int].bytes },
    )
}

/// The tiles of a folder before they are sorted: its largest subfolders, all
/// further ones in one tile, and its direct files.
pub open spec fn unsorted_tiles(tree: Seq<NodeView>, parent: int) -> Seq<Tile> {
    let children = tree[parent].children;
    let ids = ranked(tree, with_size(tree, children, children.len() as int));
    let folders = if ids.len() > MAX_TILES {
        folder_tiles(tree, ids.take(MAX_TILES as int)).push(
            Tile {
                kind: TileKind::Others,
                bytes: saturated(total_size(tree, ids.skip(MAX_TILES as int)) as int),
            },
        )
    } else {
        folder_tiles(tree, ids)
    };
    if tree[parent].own_bytes > 0 {
        folders.push(Tile { kind: TileKind::DirectFiles, bytes: tree[parent].own_bytes })
    } else {
        folders
    }
}

/// What tiles are sorted by: larger ones first, then as they stand.
pub open spec fn tile_keys(tiles: Seq<Tile>) -> Seq<(u64, u64)> {
    Seq::new(tiles.len(), |k: int| ((u64::MAX - tiles[k].bytes) as u64, k as u64))
}

/// Tiles by size, larger ones first.
pub open spec fn tiles_by_size(tiles: Seq<Tile>) -> Seq<Tile> {
    let sorted = sorted_pairs(tile_keys(tiles));
    Seq::new(sorted.len(), |k: int| tiles[sorted[k].1 as int])
}

fn sort_tiles(tiles: &Vec<Tile>) -> (r: Vec<Tile>)
    ensures
        r@ == tiles_by_size(tiles@),
        r@.len() == tiles@.len(),
{
    let ghost keys = tile_keys(tiles@);
    let mut pairs: Vec<(u64, u64)> = Vec::new();
    let mut i: usize = 0;
    while i < tiles.len()
        invariant
            i <= tiles@.len(),
            keys == tile_keys(tiles@),
            pairs@ == keys.take(i as int),
        decreases tiles@.len() - i,
    {
        pairs.push((u64::MAX - tiles[i].bytes, i as u64));
        i += 1;
        assert(pairs@ =~= keys.take(i as int));
    }
    assert(pairs@ =~= keys);
    let sorted = sort_pairs(&pairs);
    assert(tiles.len() == tiles@.len());
    let mut r: Vec<Tile> = Vec::new();
    let mut i: usize = 0;
    while i < sorted.len()
        invariant
            i <= sorted@.len(),
            keys == tile_keys(tiles@),
            sorted@ == sorted_pairs(keys),
            tiles@.len() <= usize::MAX,
            r@.len() == i,
            forall|k: int| 0 <= k < i ==> #[trigger] r@[k] == tiles@[sorted@[k].1 as int],
        decreases sorted@.len() - i,
    {
        proof {
            sorting_orders_the_pairs(keys);
            assert(sorted@.contains(sorted@[i as int]));
            assert(keys.contains(sorted@[i as int]));
        }
        r.push(tiles[sorted[i].1 as usize]);
        i += 1;
    }
    assert(r@ =~= tiles_by_size(tiles@));
    r
}

/// The tiles of a folder, larger ones first.
pub fn map_tiles(nodes: &Vec<Node>, parent: usize) -> (r: Vec<Tile>)
    requires
        parent < nodes@.len(),
        forall|k: int|
            0 <= k < nodes@[parent as int].children@.len() ==> (
            #[trigger] nodes@[parent as int].children@[k]) < nodes@.len(),
    ensures
        r@ == tiles_by_size(unsorted_tiles(tree_of(nodes@), parent as int)),
{
    let ghost tree = tree_of(nodes@);
    let node = &nodes[parent];
    let ghost children = tree[parent as int].children;
    assert(children == node.children@);
    let mut sized: Vec<usize> = Vec::new();
    let mut i: usize = 0;
    while i < node.children.len()
        invariant
            i <= children.len(),
            children == node.children@,
            tree == tree_of(nodes@),
            forall|k: int| 0 <= k < children.len() ==> (#[trigger] children[k]) < nodes@.len(),
            forall|k: int| 0 <= k < sized@.len() ==> (#[trigger] sized@[k]) < nodes@.len(),
            sized@ == with_size(tree, children, i as int),
        decreases children.len() - i,
    {
        let id: usize = node.children[i];
        assert(tree[id as int] == nodes@[id as int]@);
        if nodes[id].bytes > 0 {
            sized.push(id);
        }
        i += 1;
    }
    let ids = rank(nodes, &sized);
    let shown: usize = if ids.len() > MAX_TILES {
        MAX_TILES
    } else {
        ids.len()
    };
    let mut tiles: Vec<Tile> = Vec::new();
    let mut i: usize = 0;
    while i < shown
        invariant
            i <= shown <= ids@.len(),
            tree == tree_of(nodes@),
            forall|k: int| 0 <= k < ids@.len() ==> (#[trigger] ids@[k]) < nodes@.len(),
            tiles@ == folder_tiles(tree, ids@.take(i as int)),
        decreases shown - i,
    {
        let id: usize = ids[i];
        assert(tree[id as int] == nodes@[id as int]@);
        tiles.push(Tile { kind: TileKind::Folder(id), bytes: nodes[id].bytes });
        i += 1;
        assert(tiles@ =~= folder_tiles(tree, ids@.take(i as int)));
    }
    assert(ids@.take(ids@.len() as int) =~= ids@);
    if ids.len() > MAX_TILES {
        let mut others: u64 = 0;
        let mut i: usize = MAX_TILES;
        assert(ids@.subrange(MAX_TILES as int, MAX_TILES as int) =~= seq![]);
        while i < ids.len()
            invariant
                MAX_TILES <= i <= ids@.len(),
                tree == tree_of(nodes@),
                forall|k: int| 0 <= k < ids@.len() ==> (#[trigger] ids@[k]) < nodes@.len(),
                others == saturated(
                    total_size(tree, ids@.subrange(MAX_TILES as int, i as int)) as int,
                ),
            decreases ids@.len() - i,
        {
            let id: usize = ids[i];
            assert(tree[id as int] == nodes@[id as int]@);
            others = others.saturating_add(nodes[id].bytes);
            i += 1;
            assert(ids@.subrange(MAX_TILES as int, i as int).drop_last() =~= ids@.subrange(
                MAX_TILES as int,
                i - 1,
            ));
        }
        assert(ids@.subrange(MAX_TILES as int, i as int) =~= ids@.skip(MAX_TILES as int));
        tiles.push(Tile { kind: TileKind::Others, bytes: others });
    }
    if node.own_bytes > 0 {
        tiles.push(Tile { kind: TileKind::DirectFiles, bytes: node.own_bytes });
    }
    assert(tiles@ =~= unsorted_tiles(tree, parent as int));
    sort_tiles(&tiles)
}

} // verus!
