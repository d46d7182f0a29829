//! Decision logic of a client for a text-protocol crafting game: the map of
//! rooms and the routes between them, the recipe book, the bookkeeping of
//! what the player carries, and the planning of crafts.

pub mod world;
pub mod element;
pub mod text;
pub mod json;
pub mod protocol;
pub mod session;
pub mod craft;
pub mod search;
