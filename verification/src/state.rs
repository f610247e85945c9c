//! Game state assembled from recognition results.

use vstd::prelude::*;

verus! {

/// One recognized shop slot. `confidence` is the match correlation in
/// milli-units.
#[derive(Debug, Clone)]
pub struct ShopSlot {
    pub index: usize,
    pub champion_id: Option<String>,
    pub champion_name: Option<String>,
    pub cost: Option<u32>,
    pub confidence: i64,
}

/// One board or bench position.
#[derive(Debug, Clone)]
pub struct BoardSlot {
    pub row: u32,
    pub col: u32,
    pub champion_id: Option<String>,
    pub star_level: u32,
    pub items: Vec<Item>,
}

/// One item held by a unit.
#[derive(Debug, Clone)]
pub struct Item {
    pub id: String,
    pub name: String,
    pub is_component: bool,
}

/// The full game state extracted from screen analysis.
#[derive(Debug, Clone)]
pub struct GameState {
    pub gold: u32,
    pub level: u32,
    pub stage: String,
    pub shop: Vec<ShopSlot>,
    pub bench: Vec<BoardSlot>,
    pub board: Vec<BoardSlot>,
    pub items: Vec<Item>,
}

impl GameState {
    /// The empty state: nothing recognized yet.
    pub fn new() -> (r: GameState)
        ensures
            r.gold == 0,
            r.level == 0,
            r.stage@.len() == 0,
            r.shop@.len() == 0,
            r.bench@.len() == 0,
            r.board@.len() == 0,
            r.items@.len() == 0,
    {
        GameState {
            gold: 0,
            level: 0,
            stage: String::new(),
            shop: Vec::new(),
            bench: Vec::new(),
            board: Vec::new(),
            items: Vec::new(),
        }
    }
}

impl Default for GameState {
    /// Same as `GameState::new`.
    fn default() -> (r: GameState)
        ensures
            r.gold == 0,
            r.level == 0,
            r.stage@.len() == 0,
            r.shop@.len() == 0,
            r.bench@.len() == 0,
            r.board@.len() == 0,
            r.items@.len() == 0,
    {
        GameState::new()
    }
}

}
