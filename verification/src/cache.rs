//! Caching of leaf directories, keyed by their byte offset in the archive.
//!
//! A reader that resolves many tiles touches the same leaf directories
//! again and again; a cache keeps parsed leaves so that each is fetched
//! once. The lookup step is pure and lives here; request coalescing around
//! a fetch is the embedding runtime's concern.

use std::collections::HashMap;

use vstd::prelude::*;

use crate::directory::{sorted_by_tile_id, spec_find_tile_id, DirEntry, Directory};
use crate::tile::TileId;

verus! {

/// Result of a directory-cache lookup.
#[derive(Debug)]
pub enum DirCacheResult {
    /// The directory is not in the cache.
    NotCached,
    /// The directory is cached and holds no entry covering the queried id.
    NotFound,
    /// The directory is cached and this entry covers the queried id.
    Found(DirEntry),
}

/// A cache that caches nothing: every lookup misses.
#[derive(Debug)]
pub struct NoCache;

impl NoCache {
    /// Look up a directory by offset; a `NoCache` never holds one.
    pub fn get_dir_entry(&self, offset: u64, tile_id: TileId) -> (r: DirCacheResult)
        ensures
            r is NotCached,
    {
        let _ = offset;
        let _ = tile_id;
        DirCacheResult::NotCached
    }

    /// Store a directory; a `NoCache` drops it.
    pub fn insert_dir(&mut self, offset: u64, directory: Directory)
        ensures
            *final(self) == *old(self),
    {
        let _ = offset;
        let _ = directory;
    }
}

/// A map-backed directory cache without eviction.
pub struct HashMapCache {
    /// The cached directories by byte offset.
    cache: HashMap<u64, Directory>,
}

impl HashMapCache {
    /// The cached directories, as a map from offset to entries.
    pub closed spec fn view(&self) -> Map<u64, Seq<DirEntry>> {
        Map::new(
            |k: u64| self.cache@.contains_key(k),
            |k: u64| self.cache@[k].entries@,
        )
    }

    /// Every cached directory is ordered by tile id.
    pub closed spec fn wf(&self) -> bool {
        forall|k: u64|
            self.cache@.contains_key(k) ==> sorted_by_tile_id(#[trigger] self.cache@[k].entries@)
    }

    /// An empty cache.
    pub fn new() -> (r: HashMapCache)
        ensures
            r@ == Map::<u64, Seq<DirEntry>>::empty(),
            r.wf(),
    {
        let r = HashMapCache { cache: HashMap::new() };
        proof {
            assert(r@ =~= Map::<u64, Seq<DirEntry>>::empty());
        }
        r
    }

    /// Look the queried id up in the directory cached at `offset`: a miss
    /// if none is cached, else the cached directory's own lookup result.
    pub fn get_dir_entry(&self, offset: u64, tile_id: TileId) -> (r: DirCacheResult)
        requires
            self.wf(),
        ensures
            match r {
                DirCacheResult::NotCached => !self@.contains_key(offset),
                DirCacheResult::NotFound => self@.contains_key(offset) && spec_find_tile_id(
                    self@[offset],
                    tile_id.spec_value(),
                ) is None,
                DirCacheResult::Found(e) => self@.contains_key(offset) && spec_find_tile_id(
                    self@[offset],
                    tile_id.spec_value(),
                ) == Some(e),
            },
    {
        match self.cache.get(&offset) {
            None => DirCacheResult::NotCached,
            Some(dir) => match dir.find_tile_id(tile_id) {
                None => DirCacheResult::NotFound,
                Some(e) => DirCacheResult::Found(e),
            },
        }
    }

    /// Cache a directory under its byte offset, replacing any previous
    /// one.
    pub fn insert_dir(&mut self, offset: u64, directory: Directory)
        requires
            old(self).wf(),
            sorted_by_tile_id(directory.entries@),
        ensures
            final(self)@ == old(self)@.insert(offset, directory.entries@),
            final(self).wf(),
    {
        let ghost entries = directory.entries@;
        self.cache.insert(offset, directory);
        proof {
            assert(self@ =~= old(self)@.insert(offset, entries));
        }
    }
}

} // verus!
