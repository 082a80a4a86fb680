use vstd::prelude::*;

use ahash::AHashMap;

use crate::chunk::MovementId;
use crate::chunk::TileId;
use crate::chunk::WarpDestination;
use crate::chunk::WorldChunk;
use crate::coord::COORD_LIMIT;
use crate::coord::Coordinate;
use crate::coord::GlobalPosition;
use crate::coord::in_range;

verus! {

/// The chunk identifier the registry points at right after construction,
/// before any load-time lookup has set a real one.
pub const DEFAULT_CHUNK: u16 = 2;

/// The movement code reported when a boundary move matches no neighbor:
/// treated as "blocked" by the movement-rule table.
pub const BLOCKED_CODE: MovementId = 1;

/// Legality of a movement code, as the external movement-rule table defines
/// it: flat ground, a door, and stairs are walkable, everything else blocks.
pub open spec fn is_legal_code(code: MovementId) -> bool {
    code == 0x00 || code == 0x04 || code == 0x0C
}

/// The movement-legality predicate consumed by the boundary-move algorithm.
pub fn test_move_code(code: MovementId) -> (r: bool)
    ensures
        r == is_legal_code(code),
{
    code == 0x00 || code == 0x04 || code == 0x0C
}

#[verifier::external_type_specification]
#[verifier::external_body]
#[verifier::reject_recursive_types(K)]
#[verifier::reject_recursive_types(V)]
#[verifier::reject_recursive_types(S)]
pub struct ExAHashMap<K, V, S>(AHashMap<K, V, S>);

#[verifier::external_type_specification]
#[verifier::external_body]
pub struct ExAhashRandomState(ahash::RandomState);

/// The hash table a registry stores its chunks in.
pub type ChunkTable = AHashMap<u16, WorldChunk>;

/// The entries a chunk table holds, as a mathematical map.
pub uninterp spec fn chunk_table(m: ChunkTable) -> Map<u16, WorldChunk>;

/// The mathematical map with no entries.
pub open spec fn empty_chunk_table() -> Map<u16, WorldChunk> {
    Map::empty()
}

/// Relies on ahash::AHashMap::new: creates an empty map.
#[verifier::external_body]
fn table_new() -> (r: ChunkTable)
    ensures
        chunk_table(r) == empty_chunk_table(),
{
    AHashMap::new()
}

/// Relies on ahash::AHashMap::insert: maps the key to the value, displacing
/// any entry the key had before.
#[verifier::external_body]
fn table_insert(m: &mut ChunkTable, k: u16, v: WorldChunk)
    ensures
        chunk_table(*final(m)) == chunk_table(*old(m)).insert(k, v),
{
    m.insert(k, v);
}

/// Relies on ahash::AHashMap::get: a reference to the value under the key,
/// or nothing when the key is absent.
#[verifier::external_body]
fn table_get<'a>(m: &'a ChunkTable, k: u16) -> (r: Option<&'a WorldChunk>)
    ensures
        match r {
            Some(c) => chunk_table(*m).dom().contains(k) && *c == chunk_table(*m)[k],
            None => !chunk_table(*m).dom().contains(k),
        },
{
    m.get(&k)
}

/// Relies on ahash::AHashMap::get_mut: a mutable reference to the value
/// under the key, or nothing when the key is absent.
#[verifier::external_body]
fn table_get_mut<'a>(m: &'a mut ChunkTable, k: u16) -> (r: Option<&'a mut WorldChunk>)
    ensures
        match r {
            Some(c) => chunk_table(*old(m)).dom().contains(k) && *c == chunk_table(*old(m))[k]
                && chunk_table(*final(m)) == chunk_table(*old(m)).insert(k, *final(c)),
            None => !chunk_table(*old(m)).dom().contains(k)
                && chunk_table(*final(m)) == chunk_table(*old(m)),
        },
{
    m.get_mut(&k)
}

/// Relies on std::collections::HashMap::keys, reached through
/// ahash::AHashMap's Deref: visits every key exactly once, in arbitrary order.
#[verifier::external_body]
fn table_keys(m: &ChunkTable) -> (r: Vec<u16>)
    ensures
        r@.no_duplicates(),
        forall|k: u16| r@.contains(k) <==> chunk_table(*m).dom().contains(k),
{
    m.keys().copied().collect()
}

/// What a spatial lookup of a chunk by absolute coordinate must answer:
/// the smallest registered identifier whose chunk rectangle contains the
/// point, tested in that chunk's own local frame, or nothing when no
/// registered rectangle contains it.
pub open spec fn chunk_lookup_result(
    t: Map<u16, WorldChunk>,
    c: Coordinate,
    r: Option<u16>,
) -> bool {
    match r {
        Some(id) => t.dom().contains(id) && t[id].covers(c.x as int, c.y as int)
            && forall|j: u16|
                t.dom().contains(j) && t[j].covers(c.x as int, c.y as int) ==> id <= j,
        None => forall|j: u16| t.dom().contains(j) ==> !t[j].covers(c.x as int, c.y as int),
    }
}

/// The spatial-lookup answer is unique: any two results that both satisfy
/// the characterization agree. In particular the identifier half of
/// `chunk_at` and the result of `chunk_id_at` agree for every absolute
/// coordinate, whatever the registry holds.
pub proof fn lemma_chunk_lookup_unique(
    t: Map<u16, WorldChunk>,
    c: Coordinate,
    r1: Option<u16>,
    r2: Option<u16>,
)
    requires
        chunk_lookup_result(t, c, r1),
        chunk_lookup_result(t, c, r2),
    ensures
        r1 == r2,
{
    match (r1, r2) {
        (Some(a), Some(b)) => {
            assert(a <= b);
            assert(b <= a);
        },
        (Some(a), None) => {
            assert(!t[a].covers(c.x as int, c.y as int));
        },
        (None, Some(b)) => {
            assert(!t[b].covers(c.x as int, c.y as int));
        },
        (None, None) => {},
    }
}

/// The first declared neighbor from index `i` on that no registry entry
/// backs, if any: the lazily-detected load-time integrity defect.
pub open spec fn first_missing_from(t: Map<u16, WorldChunk>, conns: Seq<u16>, i: int) -> Option<u16>
    decreases conns.len() - i,
{
    if i < 0 || i >= conns.len() {
        None
    } else if !t.dom().contains(conns[i]) {
        Some(conns[i])
    } else {
        first_missing_from(t, conns, i + 1)
    }
}

/// What the boundary-move scan must answer for candidate point `(x, y)`:
/// among the declared neighbor identifiers whose registered rectangle
/// contains the point, the smallest, or nothing when none does.
pub open spec fn boundary_match(
    t: Map<u16, WorldChunk>,
    conns: Seq<u16>,
    x: int,
    y: int,
    m: Option<u16>,
) -> bool {
    match m {
        Some(id) => conns.contains(id) && t.dom().contains(id) && t[id].covers(x, y)
            && forall|j: int|
                0 <= j < conns.len() && t.dom().contains(conns[j])
                    && t[#[trigger] conns[j]].covers(x, y) ==> id <= conns[j],
        None => forall|j: int|
            0 <= j < conns.len()
                ==> !(t.dom().contains(conns[j]) && t[#[trigger] conns[j]].covers(x, y)),
    }
}

/// The boundary-move scan's answer is unique: any two results that both
/// satisfy the characterization agree.
pub proof fn lemma_boundary_match_unique(
    t: Map<u16, WorldChunk>,
    conns: Seq<u16>,
    x: int,
    y: int,
    m1: Option<u16>,
    m2: Option<u16>,
)
    requires
        boundary_match(t, conns, x, y, m1),
        boundary_match(t, conns, x, y, m2),
    ensures
        m1 == m2,
{
    match (m1, m2) {
        (Some(a), Some(b)) => {
            let ja = choose|j: int| 0 <= j < conns.len() && conns[j] == a;
            let jb = choose|j: int| 0 <= j < conns.len() && conns[j] == b;
            assert(conns[ja] == a && conns[jb] == b);
            assert(a <= b && b <= a);
        },
        (Some(a), None) => {
            let ja = choose|j: int| 0 <= j < conns.len() && conns[j] == a;
            assert(conns[ja] == a);
        },
        (None, Some(b)) => {
            let jb = choose|j: int| 0 <= j < conns.len() && conns[j] == b;
            assert(conns[jb] == b);
        },
        (None, None) => {},
    }
}

/// What the tile fallback scan must answer once the active chunk itself has
/// missed, walking the declared neighbors from index `i` in declared order,
/// with `(x, y)` the absolute point asked about and `orig` the active-local
/// coordinate as the caller gave it: the first neighbor whose rectangle
/// contains the point yields its tile; a declared identifier that no
/// registry entry backs, or a point no neighbor covers either, is a
/// corrupt-map condition.
pub open spec fn fallback_tile_from(
    t: Map<u16, WorldChunk>,
    conns: Seq<u16>,
    i: int,
    x: int,
    y: int,
    orig: Coordinate,
) -> Result<TileId, WorldError>
    decreases conns.len() - i,
{
    if i < 0 || i >= conns.len() {
        Result::Err(WorldError::TileOutOfBounds(orig))
    } else if !t.dom().contains(conns[i]) {
        Result::Err(WorldError::MissingConnection(conns[i]))
    } else if t[conns[i]].covers(x, y) {
        Result::Ok(t[conns[i]].map.tile_at(x - t[conns[i]].coords.x, y - t[conns[i]].coords.y))
    } else {
        fallback_tile_from(t, conns, i + 1, x, y, orig)
    }
}

/// Every tile a chunk references: its main grid, then its border set.
pub open spec fn chunk_tiles(c: WorldChunk) -> Seq<TileId> {
    c.map.tile_map@ + c.map.border_blocks@
}

/// Some registered chunk references the tile.
pub open spec fn tile_referenced(t: Map<u16, WorldChunk>, tid: TileId) -> bool {
    exists|id: u16| #[trigger] t.dom().contains(id) && chunk_tiles(t[id]).contains(tid)
}

/// Some chunk among those named by `ids[k..]` is registered and references
/// the tile.
pub open spec fn referenced_after(t: Map<u16, WorldChunk>, ids: Seq<u16>, k: int, tid: TileId) -> bool {
    exists|kk: int|
        k <= kk < ids.len() && #[trigger] t.dom().contains(ids[kk])
            && chunk_tiles(t[ids[kk]]).contains(tid)
}

/// `acc` extended, in first-seen order, with those of `s[i..]` it lacks.
pub open spec fn dedup_from(acc: Seq<TileId>, s: Seq<TileId>, i: int) -> Seq<TileId>
    decreases s.len() - i,
{
    if i < 0 || i >= s.len() {
        acc
    } else if acc.contains(s[i]) {
        dedup_from(acc, s, i + 1)
    } else {
        dedup_from(acc.push(s[i]), s, i + 1)
    }
}

/// The tiles of the chunks named by `ids[k..]`, appended to `acc` chunk by
/// chunk in first-seen order.
pub open spec fn collect_tiles_from(
    t: Map<u16, WorldChunk>,
    ids: Seq<u16>,
    k: int,
    acc: Seq<TileId>,
) -> Seq<TileId>
    decreases ids.len() - k,
{
    if k < 0 || k >= ids.len() {
        acc
    } else if !t.dom().contains(ids[k]) {
        collect_tiles_from(t, ids, k + 1, acc)
    } else {
        collect_tiles_from(t, ids, k + 1, dedup_from(acc, chunk_tiles(t[ids[k]]), 0))
    }
}

pub open spec fn strictly_ascending(s: Seq<u16>) -> bool {
    forall|i: int, j: int| 0 <= i < j < s.len() ==> s[i] < s[j]
}

/// Exactly the registered identifiers, in strictly ascending order: the
/// fixed chunk iteration order the preload list is built in.
pub open spec fn is_ascending_key_seq(t: Map<u16, WorldChunk>, ids: Seq<u16>) -> bool {
    &&& forall|k: u16| ids.contains(k) <==> t.dom().contains(k)
    &&& strictly_ascending(ids)
}

/// Appending one fresh element keeps a sequence duplicate-free, and grows
/// what it holds by exactly that element.
proof fn lemma_push_distinct(s: Seq<TileId>, x: TileId)
    requires
        !s.contains(x),
    ensures
        s.no_duplicates() ==> s.push(x).no_duplicates(),
        forall|y: TileId| s.push(x).contains(y) <==> s.contains(y) || y == x,
{
    if s.no_duplicates() {
        assert forall|p: int, q: int|
            0 <= p < s.push(x).len() && 0 <= q < s.push(x).len() && p != q
            implies s.push(x)[p] != s.push(x)[q] by {
            if p < s.len() && q < s.len() {
            } else if q == s.len() && p < s.len() {
                assert(s.contains(s[p]));
            } else if p == s.len() && q < s.len() {
                assert(s.contains(s[q]));
            }
        };
    }
    assert forall|y: TileId| s.push(x).contains(y) implies s.contains(y) || y == x by {
        let i = choose|i: int| 0 <= i < s.push(x).len() && s.push(x)[i] == y;
        if i < s.len() {
            assert(s[i] == y);
        }
    };
    assert forall|y: TileId| s.contains(y) || y == x implies s.push(x).contains(y) by {
        if s.contains(y) {
            let i = choose|i: int| 0 <= i < s.len() && s[i] == y;
            assert(s.push(x)[i] == y);
        } else {
            assert(s.push(x)[s.len() as int] == y);
        }
    };
}

/// What first-seen dedup holds and that it stays duplicate-free.
proof fn lemma_dedup_from_props(acc: Seq<TileId>, s: Seq<TileId>, i: int)
    requires
        0 <= i <= s.len(),
    ensures
        forall|tid: TileId| #[trigger] dedup_from(acc, s, i).contains(tid)
            <==> acc.contains(tid) || exists|j: int| i <= j < s.len() && s[j] == tid,
        acc.no_duplicates() ==> dedup_from(acc, s, i).no_duplicates(),
    decreases s.len() - i,
{
    if i >= s.len() {
    } else if acc.contains(s[i]) {
        lemma_dedup_from_props(acc, s, i + 1);
        assert(dedup_from(acc, s, i) == dedup_from(acc, s, i + 1));
        assert forall|tid: TileId| #[trigger] dedup_from(acc, s, i).contains(tid)
            implies acc.contains(tid) || exists|j: int| i <= j < s.len() && s[j] == tid by {
            assert(dedup_from(acc, s, i + 1).contains(tid));
            if !acc.contains(tid) {
                let j = choose|j: int| i + 1 <= j < s.len() && s[j] == tid;
                assert(i <= j < s.len() && s[j] == tid);
            }
        };
        assert forall|tid: TileId|
            acc.contains(tid) || exists|j: int| i <= j < s.len() && s[j] == tid
            implies #[trigger] dedup_from(acc, s, i).contains(tid) by {
            if acc.contains(tid) {
                assert(dedup_from(acc, s, i + 1).contains(tid));
            } else {
                let j = choose|j: int| i <= j < s.len() && s[j] == tid;
                if j == i {
                    assert(acc.contains(tid));
                } else {
                    assert(i + 1 <= j < s.len() && s[j] == tid);
                    assert(dedup_from(acc, s, i + 1).contains(tid));
                }
            }
        };
    } else {
        let acc2 = acc.push(s[i]);
        lemma_push_distinct(acc, s[i]);
        lemma_dedup_from_props(acc2, s, i + 1);
        assert(dedup_from(acc, s, i) == dedup_from(acc2, s, i + 1));
        assert forall|tid: TileId| #[trigger] dedup_from(acc, s, i).contains(tid)
            implies acc.contains(tid) || exists|j: int| i <= j < s.len() && s[j] == tid by {
            assert(dedup_from(acc2, s, i + 1).contains(tid));
            if !acc.contains(tid) {
                if acc2.contains(tid) {
                    assert(tid == s[i]);
                    assert(i <= i < s.len() && s[i] == tid);
                } else {
                    let j = choose|j: int| i + 1 <= j < s.len() && s[j] == tid;
                    assert(i <= j < s.len() && s[j] == tid);
                }
            }
        };
        assert forall|tid: TileId|
            acc.contains(tid) || exists|j: int| i <= j < s.len() && s[j] == tid
            implies #[trigger] dedup_from(acc, s, i).contains(tid) by {
            if acc.contains(tid) {
                assert(acc2.contains(tid));
                assert(dedup_from(acc2, s, i + 1).contains(tid));
            } else {
                let j = choose|j: int| i <= j < s.len() && s[j] == tid;
                if j == i {
                    assert(acc2.contains(tid));
                    assert(dedup_from(acc2, s, i + 1).contains(tid));
                } else {
                    assert(i + 1 <= j < s.len() && s[j] == tid);
                    assert(dedup_from(acc2, s, i + 1).contains(tid));
                }
            }
        };
    }
}

/// What chunk-by-chunk collection holds and that it stays duplicate-free.
proof fn lemma_collect_tiles_props(t: Map<u16, WorldChunk>, ids: Seq<u16>, k: int, acc: Seq<TileId>)
    requires
        0 <= k <= ids.len(),
    ensures
        forall|tid: TileId| #[trigger] collect_tiles_from(t, ids, k, acc).contains(tid)
            <==> acc.contains(tid) || referenced_after(t, ids, k, tid),
        acc.no_duplicates() ==> collect_tiles_from(t, ids, k, acc).no_duplicates(),
    decreases ids.len() - k,
{
    if k >= ids.len() {
    } else if !t.dom().contains(ids[k]) {
        lemma_collect_tiles_props(t, ids, k + 1, acc);
        assert(collect_tiles_from(t, ids, k, acc) == collect_tiles_from(t, ids, k + 1, acc));
        assert forall|tid: TileId| referenced_after(t, ids, k, tid)
            implies referenced_after(t, ids, k + 1, tid) by {
            let kk = choose|kk: int|
                k <= kk < ids.len() && #[trigger] t.dom().contains(ids[kk])
                    && chunk_tiles(t[ids[kk]]).contains(tid);
            assert(kk != k);
        };
        assert forall|tid: TileId| referenced_after(t, ids, k + 1, tid)
            implies referenced_after(t, ids, k, tid) by {
            let kk = choose|kk: int|
                k + 1 <= kk < ids.len() && #[trigger] t.dom().contains(ids[kk])
                    && chunk_tiles(t[ids[kk]]).contains(tid);
            assert(k <= kk);
        };
    } else {
        let s = chunk_tiles(t[ids[k]]);
        let acc2 = dedup_from(acc, s, 0);
        lemma_dedup_from_props(acc, s, 0);
        lemma_collect_tiles_props(t, ids, k + 1, acc2);
        assert(collect_tiles_from(t, ids, k, acc) == collect_tiles_from(t, ids, k + 1, acc2));
        assert forall|tid: TileId| #[trigger] collect_tiles_from(t, ids, k, acc).contains(tid)
            implies acc.contains(tid) || referenced_after(t, ids, k, tid) by {
            assert(collect_tiles_from(t, ids, k + 1, acc2).contains(tid));
            if acc2.contains(tid) && !acc.contains(tid) {
                assert(exists|j: int| 0 <= j < s.len() && s[j] == tid);
                assert(s.contains(tid));
                assert(referenced_after(t, ids, k, tid));
            }
            if !acc2.contains(tid) {
                assert(referenced_after(t, ids, k + 1, tid));
                let kk = choose|kk: int|
                    k + 1 <= kk < ids.len() && #[trigger] t.dom().contains(ids[kk])
                        && chunk_tiles(t[ids[kk]]).contains(tid);
                assert(k <= kk);
                assert(referenced_after(t, ids, k, tid));
            }
        };
        assert forall|tid: TileId| acc.contains(tid) || referenced_after(t, ids, k, tid)
            implies #[trigger] collect_tiles_from(t, ids, k, acc).contains(tid) by {
            if acc.contains(tid) {
                assert(acc2.contains(tid));
                assert(collect_tiles_from(t, ids, k + 1, acc2).contains(tid));
            } else {
                let kk = choose|kk: int|
                    k <= kk < ids.len() && #[trigger] t.dom().contains(ids[kk])
                        && chunk_tiles(t[ids[kk]]).contains(tid);
                if kk == k {
                    assert(s.contains(tid));
                    let j = choose|j: int| 0 <= j < s.len() && s[j] == tid;
                    assert(0 <= j < s.len() && s[j] == tid);
                    assert(acc2.contains(tid));
                } else {
                    assert(k + 1 <= kk);
                    assert(referenced_after(t, ids, k + 1, tid));
                }
                assert(collect_tiles_from(t, ids, k + 1, acc2).contains(tid));
            }
        };
    }
}

/// There is only one way to list a registry's identifiers in ascending
/// order, so the preload list is a function of the registry contents alone.
pub proof fn lemma_ascending_unique(s1: Seq<u16>, s2: Seq<u16>)
    requires
        strictly_ascending(s1),
        strictly_ascending(s2),
        forall|k: u16| s1.contains(k) <==> s2.contains(k),
    ensures
        s1 == s2,
    decreases s1.len(),
{
    if s1.len() == 0 {
        if s2.len() > 0 {
            assert(s2.contains(s2[0]));
            assert(s1.contains(s2[0]));
            assert(false);
        }
        assert(s1 =~= s2);
    } else if s2.len() == 0 {
        assert(s1.contains(s1[0]));
        assert(s2.contains(s1[0]));
        assert(false);
    } else {
        assert(s1.contains(s1[0]));
        assert(s2.contains(s1[0]));
        let j1 = choose|j: int| 0 <= j < s2.len() && s2[j] == s1[0];
        assert(s2[0] <= s2[j1]);
        assert(s2.contains(s2[0]));
        assert(s1.contains(s2[0]));
        let j2 = choose|j: int| 0 <= j < s1.len() && s1[j] == s2[0];
        assert(s1[0] <= s1[j2]);
        assert(s1[0] == s2[0]);
        let t1 = s1.subrange(1, s1.len() as int);
        let t2 = s2.subrange(1, s2.len() as int);
        assert forall|k: u16| t1.contains(k) <==> s1.contains(k) && k != s1[0] by {
            if t1.contains(k) {
                let p = choose|p: int| 0 <= p < t1.len() && t1[p] == k;
                assert(s1[p + 1] == k);
                assert(s1.contains(k));
                assert(s1[0] < s1[p + 1]);
            }
            if s1.contains(k) && k != s1[0] {
                let p = choose|p: int| 0 <= p < s1.len() && s1[p] == k;
                assert(p != 0);
                assert(t1[p - 1] == k);
                assert(t1.contains(k));
            }
        };
        assert forall|k: u16| t2.contains(k) <==> s2.contains(k) && k != s2[0] by {
            if t2.contains(k) {
                let p = choose|p: int| 0 <= p < t2.len() && t2[p] == k;
                assert(s2[p + 1] == k);
                assert(s2.contains(k));
                assert(s2[0] < s2[p + 1]);
            }
            if s2.contains(k) && k != s2[0] {
                let p = choose|p: int| 0 <= p < s2.len() && s2[p] == k;
                assert(p != 0);
                assert(t2[p - 1] == k);
                assert(t2.contains(k));
            }
        };
        lemma_ascending_unique(t1, t2);
        assert(s1.len() == s2.len());
        assert forall|i: int| 0 <= i < s1.len() implies s1[i] == s2[i] by {
            if i > 0 {
                assert(t1[i - 1] == s1[i]);
                assert(t2[i - 1] == s2[i]);
            }
        };
        assert(s1 =~= s2);
    }
}

/// Linear membership scan over a list of identifiers or tiles.
fn vec_has(v: &Vec<u16>, x: u16) -> (r: bool)
    ensures
        r == v@.contains(x),
{
    let mut i: usize = 0;
    while i < v.len()
        invariant
            0 <= i <= v@.len(),
            forall|j: int| 0 <= j < i ==> v@[j] != x,
        decreases v@.len() - i,
    {
        if v[i] == x {
            return true;
        }
        i = i + 1;
    }
    false
}

/// Inserts a fresh identifier into an ascending list, keeping it ascending.
fn insert_ascending(v: &mut Vec<u16>, x: u16)
    requires
        strictly_ascending(old(v)@),
        !old(v)@.contains(x),
    ensures
        strictly_ascending(final(v)@),
        forall|k: u16| final(v)@.contains(k) <==> old(v)@.contains(k) || k == x,
{
    let mut idx: usize = 0;
    while idx < v.len() && v[idx] < x
        invariant
            v@ == old(v)@,
            0 <= idx <= v@.len(),
            forall|j: int| 0 <= j < idx ==> v@[j] < x,
        decreases v@.len() - idx,
    {
        idx = idx + 1;
    }
    proof {
        if idx < v@.len() {
            assert(v@.contains(v@[idx as int]));
            assert(v@[idx as int] > x);
        }
        v@.insert_ensures(idx as int, x);
    }
    let ghost before = v@;
    v.insert(idx, x);
    proof {
        assert forall|p: int, q: int| 0 <= p < q < v@.len() implies v@[p] < v@[q] by {
            if q < idx {
            } else if p < idx && q == idx {
                assert(v@[p] == before[p]);
            } else if p < idx && q > idx {
                assert(v@[p] == before[p] && v@[q] == before[q - 1]);
                if q - 1 == idx {
                    assert(before[idx as int] > x);
                } else {
                    assert(before[p] < before[q - 1]);
                }
            } else if p == idx {
                assert(v@[q] == before[q - 1]);
                assert(before[q - 1] >= before[idx as int]);
                assert(before[idx as int] > x);
            } else {
                assert(v@[p] == before[p - 1] && v@[q] == before[q - 1]);
            }
        };
        assert forall|k: u16| v@.contains(k) implies before.contains(k) || k == x by {
            let p = choose|p: int| 0 <= p < v@.len() && v@[p] == k;
            if p < idx {
                assert(before[p] == k);
            } else if p > idx {
                assert(before[p - 1] == k);
            }
        };
        assert forall|k: u16| before.contains(k) || k == x implies v@.contains(k) by {
            if before.contains(k) {
                let p = choose|p: int| 0 <= p < before.len() && before[p] == k;
                if p < idx {
                    assert(v@[p] == k);
                } else {
                    assert(v@[p + 1] == k);
                }
            } else {
                assert(v@[idx as int] == k);
            }
        };
    }
}

/// The ways a registry operation can find the map data itself inconsistent.
/// These are integrity defects of the loaded dataset, never ordinary misses.
#[derive(Clone, Copy, PartialEq, Eq, Structural, Debug)]
pub enum WorldError {
    /// The active-chunk cursor points at no registered chunk.
    NoActiveChunk,
    /// The active chunk declares this neighbor, but no chunk has the id.
    MissingConnection(u16),
    /// Neither the active chunk nor any declared neighbor backs this
    /// active-local coordinate with tile data.
    TileOutOfBounds(Coordinate),
}

/// For any coordinate inside the active chunk's own rectangle, the world's
/// tile answer is that chunk's own tile, never a neighbor's, however close
/// an adjacent rectangle is; walkability already delegates to the active
/// chunk alone by its contract.
pub proof fn lemma_active_tile_is_own(m: WorldChunkMap, c: Coordinate)
    requires
        m.has_active(),
        m.active_chunk().map.in_grid(c.x as int, c.y as int),
    ensures
        m.world_tile(c) == Result::<TileId, WorldError>::Ok(
            m.active_chunk().map.tile_at(c.x as int, c.y as int),
        ),
{
}

/// The registry: every chunk of the world keyed by identifier, plus the
/// transient cursor naming the chunk the actor currently stands in.
pub struct WorldChunkMap {
    pub chunks: ChunkTable,
    pub current_chunk: u16,
}

impl WorldChunkMap {
    /// The registered chunks as a mathematical map.
    pub open spec fn table(self) -> Map<u16, WorldChunk> {
        chunk_table(self.chunks)
    }

    pub open spec fn has_chunk(self, id: u16) -> bool {
        self.table().dom().contains(id)
    }

    /// The cursor resolves to a registered chunk.
    pub open spec fn has_active(self) -> bool {
        self.has_chunk(self.current_chunk)
    }

    pub open spec fn active_chunk(self) -> WorldChunk {
        self.table()[self.current_chunk]
    }

    /// Every registered chunk is well-formed.
    pub open spec fn wf(self) -> bool {
        forall|id: u16| self.table().dom().contains(id) ==> self.table()[id].wf()
    }

    /// An empty registry; the cursor starts at the fixed default identifier
    /// and is meaningful only once a chunk with that id is registered.
    pub fn new() -> (r: Self)
        ensures
            r.table() == empty_chunk_table(),
            r.current_chunk == DEFAULT_CHUNK,
            r.wf(),
    {
        WorldChunkMap { chunks: table_new(), current_chunk: DEFAULT_CHUNK }
    }

    /// Registers a chunk under an identifier, displacing any chunk the
    /// identifier named before. The cursor is untouched.
    pub fn insert_chunk(&mut self, chunk_id: u16, chunk: WorldChunk)
        requires
            chunk.wf(),
        ensures
            final(self).table() == old(self).table().insert(chunk_id, chunk),
            final(self).current_chunk == old(self).current_chunk,
            old(self).wf() ==> final(self).wf(),
    {
        table_insert(&mut self.chunks, chunk_id, chunk);
        proof {
            if old(self).wf() {
                assert forall|id: u16| self.table().dom().contains(id)
                    implies self.table()[id].wf() by {
                    if id != chunk_id {
                        assert(old(self).table().dom().contains(id));
                    }
                };
            }
        }
    }

    /// Moves the cursor to `chunk_id` and hands the chunk back, when the
    /// identifier is registered; otherwise leaves the cursor untouched and
    /// reports the miss. The only sanctioned way to change the cursor.
    pub fn update_chunk(&mut self, chunk_id: &u16) -> (r: Option<&WorldChunk>)
        ensures
            final(self).table() == old(self).table(),
            match r {
                Some(c) => old(self).has_chunk(*chunk_id)
                    && final(self).current_chunk == *chunk_id
                    && *c == old(self).table()[*chunk_id],
                None => !old(self).has_chunk(*chunk_id)
                    && final(self).current_chunk == old(self).current_chunk,
            },
    {
        if let Some(chunk) = table_get(&self.chunks, *chunk_id) {
            self.current_chunk = *chunk_id;
            Some(chunk)
        } else {
            None
        }
    }

    /// Switches to `chunk_index` and re-bases the actor into the target
    /// chunk's frame: the new local offset is the actor's old absolute
    /// position minus the target's origin, the new global origin is the
    /// target's origin. When the identifier is unregistered, neither the
    /// cursor nor the actor moves.
    pub fn change_chunk(&mut self, chunk_index: u16, player_pos: &mut GlobalPosition)
        requires
            old(self).wf(),
            in_range(old(player_pos).global),
            in_range(old(player_pos).local),
        ensures
            final(self).table() == old(self).table(),
            final(self).wf(),
            if old(self).has_chunk(chunk_index) {
                &&& final(self).current_chunk == chunk_index
                &&& final(player_pos).global == old(self).table()[chunk_index].coords
                &&& final(player_pos).local.x == old(player_pos).absolute_x()
                    - old(self).table()[chunk_index].coords.x
                &&& final(player_pos).local.y == old(player_pos).absolute_y()
                    - old(self).table()[chunk_index].coords.y
            } else {
                &&& final(self).current_chunk == old(self).current_chunk
                &&& *final(player_pos) == *old(player_pos)
            },
    {
        if let Some(chunk) = self.update_chunk(&chunk_index) {
            let origin = chunk.coords;
            let absolute = player_pos.absolute();
            player_pos.local = absolute.minus(origin);
            player_pos.global = origin;
        }
    }

    /// The chunk the cursor points at. A cursor that resolves to no
    /// registered chunk is a corrupt-map condition and is reported, never
    /// papered over with a default chunk.
    pub fn current_chunk(&self) -> (r: Result<&WorldChunk, WorldError>)
        ensures
            match r {
                Ok(c) => self.has_active() && *c == self.active_chunk(),
                Err(e) => !self.has_active() && e == WorldError::NoActiveChunk,
            },
    {
        match table_get(&self.chunks, self.current_chunk) {
            Some(c) => Ok(c),
            None => Err(WorldError::NoActiveChunk),
        }
    }

    /// Finds the chunk whose rectangle contains an absolute coordinate,
    /// handing back its identifier and the chunk. Every candidate is tested
    /// in its own local frame (the chunk's origin is subtracted first), and
    /// where several registered rectangles overlap the point, the smallest
    /// identifier wins.
    pub fn chunk_at(&self, coords: Coordinate) -> (r: Option<(u16, &WorldChunk)>)
        requires
            self.wf(),
            in_range(coords),
        ensures
            match r {
                Some(p) => chunk_lookup_result(self.table(), coords, Some(p.0))
                    && *p.1 == self.table()[p.0],
                None => chunk_lookup_result(self.table(), coords, None::<u16>),
            },
    {
        match self.chunk_id_at(coords) {
            Some(id) => match table_get(&self.chunks, id) {
                Some(c) => Some((id, c)),
                None => None,
            },
            None => None,
        }
    }

    /// As `chunk_at`, but hands back the identifier alone.
    pub fn chunk_id_at(&self, coords: Coordinate) -> (r: Option<u16>)
        requires
            self.wf(),
            in_range(coords),
        ensures
            chunk_lookup_result(self.table(), coords, r),
    {
        let keys = table_keys(&self.chunks);
        let mut best: Option<u16> = None;
        let mut i: usize = 0;
        while i < keys.len()
            invariant
                self.wf(),
                in_range(coords),
                0 <= i <= keys@.len(),
                forall|k: u16| keys@.contains(k) <==> self.table().dom().contains(k),
                match best {
                    Some(b) => self.table().dom().contains(b)
                        && self.table()[b].covers(coords.x as int, coords.y as int)
                        && forall|j: int| 0 <= j < i
                            && self.table().dom().contains(keys@[j])
                            && self.table()[keys@[j]].covers(coords.x as int, coords.y as int)
                            ==> b <= keys@[j],
                    None => forall|j: int| 0 <= j < i
                        ==> !(self.table().dom().contains(keys@[j])
                            && self.table()[keys@[j]].covers(coords.x as int, coords.y as int)),
                },
            decreases keys@.len() - i,
        {
            let id = keys[i];
            proof {
                assert(keys@.contains(id));
                assert(self.table().dom().contains(id) ==> self.table()[id].wf());
            }
            if let Some(chunk) = table_get(&self.chunks, id) {
                let local = coords.minus(chunk.coords);
                if chunk.in_bounds(local) {
                    match best {
                        Some(b) => {
                            if id < b {
                                best = Some(id);
                            }
                        },
                        None => {
                            best = Some(id);
                        },
                    }
                }
            }
            i = i + 1;
        }
        proof {
            if let Some(b) = best {
                assert forall|j: u16|
                    self.table().dom().contains(j)
                        && self.table()[j].covers(coords.x as int, coords.y as int)
                    implies b <= j by {
                    assert(keys@.contains(j));
                    let idx = keys@.index_of(j);
                    assert(keys@[idx] == j);
                };
            } else {
                assert forall|j: u16| self.table().dom().contains(j)
                    implies !self.table()[j].covers(coords.x as int, coords.y as int) by {
                    assert(keys@.contains(j));
                    let idx = keys@.index_of(j);
                    assert(keys@[idx] == j);
                };
            }
        }
        best
    }

    /// Resolves the active chunk's declared neighbor identifiers into live
    /// chunk references, in declared order. A declared identifier that no
    /// registry entry backs is an integrity defect and is reported, as is a
    /// cursor that resolves to no chunk.
    pub fn connections(&self) -> (r: Result<Vec<(u16, &WorldChunk)>, WorldError>)
        ensures
            match r {
                Ok(v) => self.has_active()
                    && first_missing_from(
                        self.table(),
                        self.active_chunk().connections@,
                        0,
                    ) is None
                    && v@.len() == self.active_chunk().connections@.len()
                    && forall|i: int| 0 <= i < v@.len()
                        ==> (#[trigger] v@[i]).0 == self.active_chunk().connections@[i]
                            && self.has_chunk(v@[i].0)
                            && *v@[i].1 == self.table()[v@[i].0],
                Err(e) => match e {
                    WorldError::NoActiveChunk => !self.has_active(),
                    WorldError::MissingConnection(id) => self.has_active()
                        && first_missing_from(
                            self.table(),
                            self.active_chunk().connections@,
                            0,
                        ) == Some(id),
                    _ => false,
                },
            },
    {
        let current = match self.current_chunk() {
            Ok(c) => c,
            Err(e) => {
                return Err(e);
            },
        };
        let ghost t = self.table();
        let ghost conns = current.connections@;
        let mut v: Vec<(u16, &WorldChunk)> = Vec::new();
        let mut i: usize = 0;
        while i < current.connections.len()
            invariant
                self.has_active(),
                *current == self.active_chunk(),
                t == self.table(),
                conns == current.connections@,
                0 <= i <= conns.len(),
                v@.len() == i,
                forall|j: int| 0 <= j < i
                    ==> (#[trigger] v@[j]).0 == conns[j]
                        && t.dom().contains(v@[j].0)
                        && *v@[j].1 == t[v@[j].0],
                first_missing_from(t, conns, 0) == first_missing_from(t, conns, i as int),
            decreases conns.len() - i,
        {
            let id = current.connections[i];
            match table_get(&self.chunks, id) {
                Some(c) => {
                    v.push((id, c));
                },
                None => {
                    return Err(WorldError::MissingConnection(id));
                },
            }
            i = i + 1;
        }
        Ok(v)
    }

    /// The boundary-crossing move. `coords` is the step's offset from the
    /// active chunk's origin, so `global + coords` is the absolute candidate
    /// point. Every declared neighbor is tested in its own local frame; where
    /// several neighbor rectangles contain the point, the smallest identifier
    /// wins. When the matched neighbor's movement code is legal, the registry
    /// switches to it and the actor is re-based atomically with the answer;
    /// otherwise, and when nothing matches, every piece of state is left
    /// exactly as it was.
    pub fn walk_connections(
        &mut self,
        player_pos: &mut GlobalPosition,
        coords: Coordinate,
    ) -> (r: (MovementId, bool))
        requires
            old(self).wf(),
            old(self).has_active(),
            first_missing_from(
                old(self).table(),
                old(self).active_chunk().connections@,
                0,
            ) is None,
            in_range(old(player_pos).global),
            in_range(old(player_pos).local),
            in_range(coords),
        ensures
            final(self).table() == old(self).table(),
            final(self).wf(),
            forall|m: Option<u16>|
                #[trigger] boundary_match(
                    old(self).table(),
                    old(self).active_chunk().connections@,
                    old(player_pos).global.x + coords.x,
                    old(player_pos).global.y + coords.y,
                    m,
                ) ==> match m {
                    None => r == (BLOCKED_CODE, false)
                        && final(self).current_chunk == old(self).current_chunk
                        && *final(player_pos) == *old(player_pos),
                    Some(id) => {
                        let target = old(self).table()[id];
                        let code = target.map.movement_at(
                            old(player_pos).global.x + coords.x - target.coords.x,
                            old(player_pos).global.y + coords.y - target.coords.y,
                        );
                        r.0 == code && if is_legal_code(code) {
                            r.1 == true
                            && final(self).current_chunk == id
                            && final(player_pos).global == target.coords
                            && final(player_pos).local.x == old(player_pos).absolute_x()
                                - target.coords.x
                            && final(player_pos).local.y == old(player_pos).absolute_y()
                                - target.coords.y
                        } else {
                            r.1 == false
                            && final(self).current_chunk == old(self).current_chunk
                            && *final(player_pos) == *old(player_pos)
                        }
                    },
                },
    {
        let ghost t = self.table();
        let ghost aconns = self.active_chunk().connections@;
        let ghost cx = player_pos.global.x + coords.x as int;
        let ghost cy = player_pos.global.y + coords.y as int;
        let absolute = player_pos.global.plus(coords);
        let mut move_code: MovementId = BLOCKED_CODE;
        let mut matched: Option<u16> = None;
        {
            let conns = match self.connections() {
                Ok(v) => v,
                Err(_) => {
                    proof {
                        assert(false);
                    }
                    return (BLOCKED_CODE, false);
                },
            };
            let mut i: usize = 0;
            while i < conns.len()
                invariant
                    self.wf(),
                    t == self.table(),
                    0 <= i <= conns@.len(),
                    conns@.len() == aconns.len(),
                    forall|j: int| 0 <= j < conns@.len()
                        ==> (#[trigger] conns@[j]).0 == aconns[j]
                            && t.dom().contains(conns@[j].0)
                            && *conns@[j].1 == t[conns@[j].0],
                    absolute.x == cx,
                    absolute.y == cy,
                    -2 * COORD_LIMIT <= cx <= 2 * COORD_LIMIT,
                    -2 * COORD_LIMIT <= cy <= 2 * COORD_LIMIT,
                    match matched {
                        Some(b) => (exists|j: int| 0 <= j < i && aconns[j] == b)
                            && t.dom().contains(b)
                            && t[b].covers(cx, cy)
                            && move_code == t[b].map.movement_at(cx - t[b].coords.x, cy - t[b].coords.y)
                            && forall|j: int|
                                0 <= j < i && t.dom().contains(aconns[j])
                                    && t[#[trigger] aconns[j]].covers(cx, cy) ==> b <= aconns[j],
                        None => move_code == BLOCKED_CODE
                            && forall|j: int| 0 <= j < i
                                ==> !(t.dom().contains(aconns[j])
                                    && t[#[trigger] aconns[j]].covers(cx, cy)),
                    },
                decreases conns@.len() - i,
            {
                let (id, chunk) = conns[i];
                proof {
                    assert(*chunk == t[id]);
                    assert(t[id].wf());
                }
                let local = absolute.minus(chunk.coords);
                if chunk.in_bounds(local) {
                    let better = match matched {
                        Some(b) => id < b,
                        None => true,
                    };
                    if better {
                        move_code = chunk.walkable(local);
                        matched = Some(id);
                    }
                }
                i = i + 1;
            }
        }
        proof {
            assert(boundary_match(t, aconns, cx, cy, matched));
        }
        if let Some(chunk_id) = matched {
            if test_move_code(move_code) {
                self.change_chunk(chunk_id, player_pos);
                proof {
                    assert forall|m: Option<u16>| boundary_match(t, aconns, cx, cy, m)
                        implies m == matched by {
                        lemma_boundary_match_unique(t, aconns, cx, cy, m, matched);
                    };
                }
                return (move_code, true);
            }
        }
        proof {
            assert forall|m: Option<u16>| boundary_match(t, aconns, cx, cy, m)
                implies m == matched by {
                lemma_boundary_match_unique(t, aconns, cx, cy, m, matched);
            };
        }
        (move_code, false)
    }

    /// Whether an active-local coordinate lies in the active chunk's grid.
    pub fn in_bounds(&self, coords: Coordinate) -> (r: bool)
        requires
            self.has_active(),
        ensures
            r == self.active_chunk().map.in_grid(coords.x as int, coords.y as int),
    {
        match self.current_chunk() {
            Ok(c) => c.in_bounds(coords),
            Err(_) => {
                proof {
                    assert(false);
                }
                false
            },
        }
    }

    /// The tile `tile` must answer for an active-local coordinate: the
    /// active chunk's own tile when the coordinate is in its grid (never a
    /// neighbor's, however close an adjacent rectangle is), else the first
    /// declared neighbor covering the corresponding absolute point, else a
    /// corrupt-map report — no synthetic border tile is substituted.
    pub open spec fn world_tile(self, coords: Coordinate) -> Result<TileId, WorldError> {
        if !self.has_active() {
            Result::Err(WorldError::NoActiveChunk)
        } else if self.active_chunk().map.in_grid(coords.x as int, coords.y as int) {
            Result::Ok(self.active_chunk().map.tile_at(coords.x as int, coords.y as int))
        } else {
            fallback_tile_from(
                self.table(),
                self.active_chunk().connections@,
                0,
                self.active_chunk().coords.x + coords.x,
                self.active_chunk().coords.y + coords.y,
                coords,
            )
        }
    }

    /// Tile lookup in the active chunk's local frame, with fallback to the
    /// declared neighbors (each tested in its own frame, in declared order).
    /// A coordinate that neither the active chunk nor any declared neighbor
    /// backs, or integrity defects met on the way, are reported as errors.
    pub fn tile(&self, coords: Coordinate) -> (r: Result<TileId, WorldError>)
        requires
            self.wf(),
            in_range(coords),
        ensures
            r == self.world_tile(coords),
    {
        let current = match self.current_chunk() {
            Ok(c) => c,
            Err(e) => {
                return Err(e);
            },
        };
        if let Some(tile) = current.safe_tile(coords) {
            return Ok(tile);
        }
        let ghost t = self.table();
        let ghost conns = current.connections@;
        let absolute = coords.plus(current.coords);
        let ghost x = absolute.x as int;
        let ghost y = absolute.y as int;
        let mut i: usize = 0;
        while i < current.connections.len()
            invariant
                self.wf(),
                self.has_active(),
                *current == self.active_chunk(),
                !self.active_chunk().map.in_grid(coords.x as int, coords.y as int),
                t == self.table(),
                conns == current.connections@,
                0 <= i <= conns.len(),
                -2 * COORD_LIMIT <= x <= 2 * COORD_LIMIT,
                -2 * COORD_LIMIT <= y <= 2 * COORD_LIMIT,
                x == self.active_chunk().coords.x + coords.x,
                y == self.active_chunk().coords.y + coords.y,
                absolute.x == x,
                absolute.y == y,
                fallback_tile_from(t, conns, 0, x, y, coords)
                    == fallback_tile_from(t, conns, i as int, x, y, coords),
            decreases conns.len() - i,
        {
            let id = current.connections[i];
            match table_get(&self.chunks, id) {
                Some(chunk) => {
                    proof {
                        assert(t[id].wf());
                    }
                    let local = absolute.minus(chunk.coords);
                    if let Some(tile) = chunk.safe_tile(local) {
                        return Ok(tile);
                    }
                },
                None => {
                    return Err(WorldError::MissingConnection(id));
                },
            }
            i = i + 1;
        }
        Err(WorldError::TileOutOfBounds(coords))
    }

    /// Movement-code lookup, delegated to the active chunk alone: no
    /// neighbor fallback.
    pub fn walkable(&self, coords: Coordinate) -> (r: MovementId)
        requires
            self.wf(),
            self.has_active(),
            self.active_chunk().map.in_grid(coords.x as int, coords.y as int),
        ensures
            r == self.active_chunk().map.movement_at(coords.x as int, coords.y as int),
    {
        match self.current_chunk() {
            Ok(c) => c.walkable(coords),
            Err(_) => {
                proof {
                    assert(false);
                }
                BLOCKED_CODE
            },
        }
    }

    /// Warp lookup, delegated to the active chunk alone.
    pub fn check_warp(&self, coords: Coordinate) -> (r: Option<WarpDestination>)
        requires
            self.has_active(),
        ensures
            r == self.active_chunk().map.warp_at(coords.x as int, coords.y as int),
    {
        match self.current_chunk() {
            Ok(c) => c.check_warp(coords),
            Err(_) => {
                proof {
                    assert(false);
                }
                None
            },
        }
    }

    /// Every distinct tile any registered chunk references (main grid or
    /// border set), each exactly once, in first-seen order along a fixed
    /// iteration order: chunks in ascending identifier order, each chunk's
    /// grid before its border set. Meant for one-time asset preloading.
    pub fn tiles(&self) -> (r: Vec<TileId>)
        ensures
            r@.no_duplicates(),
            forall|tid: TileId| r@.contains(tid) <==> tile_referenced(self.table(), tid),
            forall|ids: Seq<u16>| is_ascending_key_seq(self.table(), ids)
                ==> r@ == collect_tiles_from(self.table(), ids, 0, Seq::<TileId>::empty()),
    {
        let ghost t = self.table();
        let keys = table_keys(&self.chunks);
        let mut sorted: Vec<u16> = Vec::new();
        let mut i: usize = 0;
        while i < keys.len()
            invariant
                keys@.no_duplicates(),
                0 <= i <= keys@.len(),
                strictly_ascending(sorted@),
                forall|k: u16| sorted@.contains(k)
                    <==> exists|j: int| 0 <= j < i && keys@[j] == k,
            decreases keys@.len() - i,
        {
            let k = keys[i];
            proof {
                if sorted@.contains(k) {
                    let j = choose|j: int| 0 <= j < i && keys@[j] == k;
                    assert(keys@[j] == keys@[i as int]);
                    assert(false);
                }
            }
            insert_ascending(&mut sorted, k);
            proof {
                assert forall|kk: u16| sorted@.contains(kk)
                    implies exists|j: int| 0 <= j < i + 1 && keys@[j] == kk by {
                    if kk == k {
                        assert(keys@[i as int] == kk);
                    } else {
                        let j = choose|j: int| 0 <= j < i && keys@[j] == kk;
                        assert(0 <= j < i + 1 && keys@[j] == kk);
                    }
                };
                assert forall|kk: u16| exists|j: int| 0 <= j < i + 1 && keys@[j] == kk
                    implies sorted@.contains(kk) by {
                    let j = choose|j: int| 0 <= j < i + 1 && keys@[j] == kk;
                    if j < i {
                        assert(exists|jj: int| 0 <= jj < i && keys@[jj] == kk);
                    }
                };
            }
            i = i + 1;
        }
        proof {
            assert forall|k: u16| sorted@.contains(k) implies t.dom().contains(k) by {
                let j = choose|j: int| 0 <= j < keys@.len() && keys@[j] == k;
                assert(keys@.contains(k));
            };
            assert forall|k: u16| t.dom().contains(k) implies sorted@.contains(k) by {
                assert(keys@.contains(k));
                let j = choose|j: int| 0 <= j < keys@.len() && keys@[j] == k;
                assert(exists|jj: int| 0 <= jj < keys@.len() && keys@[jj] == k);
            };
            assert(is_ascending_key_seq(t, sorted@));
        }
        let mut result: Vec<TileId> = Vec::new();
        let mut k: usize = 0;
        while k < sorted.len()
            invariant
                t == self.table(),
                is_ascending_key_seq(t, sorted@),
                0 <= k <= sorted@.len(),
                result@.no_duplicates(),
                collect_tiles_from(t, sorted@, k as int, result@)
                    == collect_tiles_from(t, sorted@, 0, Seq::<TileId>::empty()),
            decreases sorted@.len() - k,
        {
            let id = sorted[k];
            proof {
                assert(sorted@.contains(id));
            }
            match table_get(&self.chunks, id) {
                Some(chunk) => {
                    let ghost s = chunk_tiles(t[id]);
                    let ghost entry = result@;
                    let mut j: usize = 0;
                    while j < chunk.map.tile_map.len()
                        invariant
                            *chunk == t[sorted@[k as int]],
                            t.dom().contains(sorted@[k as int]),
                            s == chunk_tiles(t[sorted@[k as int]]),
                            0 <= j <= chunk.map.tile_map@.len(),
                            result@.no_duplicates(),
                            dedup_from(result@, s, j as int) == dedup_from(entry, s, 0),
                        decreases chunk.map.tile_map@.len() - j,
                    {
                        let tile = chunk.map.tile_map[j];
                        proof {
                            assert(s[j as int] == tile);
                        }
                        if !vec_has(&result, tile) {
                            proof {
                                lemma_push_distinct(result@, tile);
                            }
                            result.push(tile);
                        }
                        j = j + 1;
                    }
                    let ghost base = chunk.map.tile_map@.len();
                    let mut b: usize = 0;
                    while b < chunk.map.border_blocks.len()
                        invariant
                            *chunk == t[sorted@[k as int]],
                            t.dom().contains(sorted@[k as int]),
                            s == chunk_tiles(t[sorted@[k as int]]),
                            base == chunk.map.tile_map@.len(),
                            0 <= b <= chunk.map.border_blocks@.len(),
                            result@.no_duplicates(),
                            dedup_from(result@, s, base + b) == dedup_from(entry, s, 0),
                        decreases chunk.map.border_blocks@.len() - b,
                    {
                        let tile = chunk.map.border_blocks[b];
                        proof {
                            assert(s[base + b] == tile);
                        }
                        if !vec_has(&result, tile) {
                            proof {
                                lemma_push_distinct(result@, tile);
                            }
                            result.push(tile);
                        }
                        b = b + 1;
                    }
                    proof {
                        assert(base + chunk.map.border_blocks@.len() == s.len());
                        assert(dedup_from(result@, s, s.len() as int) == result@);
                        assert(collect_tiles_from(t, sorted@, k as int, entry)
                            == collect_tiles_from(t, sorted@, k + 1, result@));
                    }
                },
                None => {
                    proof {
                        assert(false);
                    }
                },
            }
            k = k + 1;
        }
        proof {
            lemma_collect_tiles_props(t, sorted@, 0, Seq::<TileId>::empty());
            assert(result@ == collect_tiles_from(t, sorted@, 0, Seq::<TileId>::empty()));
            assert forall|tid: TileId| result@.contains(tid)
                implies tile_referenced(t, tid) by {
                assert(referenced_after(t, sorted@, 0, tid));
                let kk = choose|kk: int|
                    0 <= kk < sorted@.len() && #[trigger] t.dom().contains(sorted@[kk])
                        && chunk_tiles(t[sorted@[kk]]).contains(tid);
                assert(t.dom().contains(sorted@[kk]) && chunk_tiles(t[sorted@[kk]]).contains(tid));
            };
            assert forall|tid: TileId| tile_referenced(t, tid)
                implies result@.contains(tid) by {
                let id = choose|id: u16|
                    #[trigger] t.dom().contains(id) && chunk_tiles(t[id]).contains(tid);
                assert(sorted@.contains(id));
                let kk = choose|kk: int| 0 <= kk < sorted@.len() && sorted@[kk] == id;
                assert(t.dom().contains(sorted@[kk]) && chunk_tiles(t[sorted@[kk]]).contains(tid));
                assert(referenced_after(t, sorted@, 0, tid));
            };
            assert forall|ids: Seq<u16>| is_ascending_key_seq(t, ids)
                implies result@ == collect_tiles_from(t, ids, 0, Seq::<TileId>::empty()) by {
                assert forall|kk: u16| ids.contains(kk) <==> sorted@.contains(kk) by {};
                lemma_ascending_unique(sorted@, ids);
            };
        }
        result
    }

    /// Mutable access to the chunk the cursor points at, under the same
    /// corrupt-map reporting as `current_chunk`.
    pub fn current_chunk_mut(&mut self) -> (r: Result<&mut WorldChunk, WorldError>)
        ensures
            final(self).current_chunk == old(self).current_chunk,
            match r {
                Ok(c) => old(self).has_active() && *c == old(self).active_chunk()
                    && final(self).table()
                        == old(self).table().insert(old(self).current_chunk, *final(c)),
                Err(e) => !old(self).has_active() && e == WorldError::NoActiveChunk
                    && final(self).table() == old(self).table(),
            },
    {
        let id = self.current_chunk;
        match table_get_mut(&mut self.chunks, id) {
            Some(c) => Ok(c),
            None => Err(WorldError::NoActiveChunk),
        }
    }
}

} // verus!
