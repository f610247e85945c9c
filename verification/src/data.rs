//! Game metadata: champions, items and meta compositions.
//!
//! The catalog itself is loaded from disk outside this library and handed
//! in as plain values; this module holds the registry, its lookup
//! structure, and the invariant the loader establishes.

use vstd::prelude::*;

verus! {

/// One champion of the current set.
#[derive(Debug, Clone)]
pub struct ChampionData {
    pub id: String,
    pub name: String,
    pub cost: u32,
    pub traits: Vec<String>,
    pub icon: String,
}

/// One item.
#[derive(Debug, Clone)]
pub struct ItemData {
    pub id: String,
    pub name: String,
    pub is_component: bool,
    pub recipe: Option<(String, String)>,
}

/// One recommended composition. Core items are an association list from
/// champion id to item ids.
#[derive(Debug, Clone)]
pub struct MetaComp {
    pub name: String,
    pub tier: String,
    pub core_units: Vec<String>,
    pub flex_units: Vec<String>,
    pub core_items: Vec<(String, Vec<String>)>,
    pub early_game: Vec<String>,
    pub power_spike: String,
}

/// Registry of game data, with a lowercase-name index for champions.
#[derive(Debug, Clone)]
pub struct GameData {
    pub champions: Vec<ChampionData>,
    /// Pairs of (lowercased display name, champion id).
    pub champions_by_name: Vec<(String, String)>,
    pub items: Vec<ItemData>,
    pub meta_comps: Vec<MetaComp>,
}

impl GameData {
    /// An empty registry; everything that consults it degrades to
    /// "not found" rather than failing.
    pub fn new() -> (r: GameData)
        ensures
            r.champions@.len() == 0,
            r.champions_by_name@.len() == 0,
            r.items@.len() == 0,
            r.meta_comps@.len() == 0,
    {
        GameData {
            champions: Vec::new(),
            champions_by_name: Vec::new(),
            items: Vec::new(),
            meta_comps: Vec::new(),
        }
    }

    /// Register one champion together with its lowercased name key.
    pub fn insert_champion(&mut self, champ: ChampionData, name_key: String)
        ensures
            final(self).champions@.len() == old(self).champions@.len() + 1,
            final(self).champions_by_name@.len() == old(self).champions_by_name@.len() + 1,
            final(self).champions@.last().id@ == final(self).champions_by_name@.last().1@,
            final(self).champions_by_name@.last().0@ == name_key@,
            forall|i: int|
                0 <= i < old(self).champions@.len() ==> final(self).champions@[i]
                    == old(self).champions@[i],
            final(self).items@ == old(self).items@,
            final(self).meta_comps@ == old(self).meta_comps@,
    {
        let id_copy = champ.id.clone();
        self.champions_by_name.push((name_key, id_copy));
        self.champions.push(champ);
    }

    /// Look a champion up by its id: the first entry whose id matches, or
    /// `None` exactly when no entry matches.
    pub fn champion_by_id(&self, id: &String) -> (r: Option<&ChampionData>)
        ensures
            match r {
                Some(c) => exists|i: int|
                    {
                        &&& 0 <= i < self.champions@.len()
                        &&& (#[trigger] self.champions@[i]).id@ == id@
                        &&& c == self.champions@[i]
                        &&& forall|j: int|
                            0 <= j < i ==> (#[trigger] self.champions@[j]).id@ != id@
                    },
                None => forall|i: int|
                    0 <= i < self.champions@.len() ==> (#[trigger] self.champions@[i]).id@ != id@,
            },
    {
        let mut i: usize = 0;
        while i < self.champions.len()
            invariant
                i <= self.champions@.len(),
                forall|j: int|
                    0 <= j < i ==> (#[trigger] self.champions@[j]).id@ != id@,
            decreases self.champions@.len() - i,
        {
            if self.champions[i].id == *id {
                return Some(&self.champions[i]);
            }
            i = i + 1;
        }
        None
    }

    /// Number of registered champions.
    pub fn champion_count(&self) -> (n: usize)
        ensures
            n == self.champions@.len(),
    {
        self.champions.len()
    }
}

}
