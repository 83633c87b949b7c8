//! A four-player tile game in the style of Japanese Mahjong, with the
//! analysis of hands at its heart.
//!
//! The crate models tiles and melds, finds the melds that a hand holds,
//! decomposes a hand into melds, decides whether a hand is complete, finds
//! the tiles that a hand is waiting for, and selects the canonical
//! decomposition of a complete hand, by which the hand is valued. Around
//! that stand the wall and the deal, the players with their discard
//! policies, the turns of a round and the payments at its end.
//!
//! The functions are verified against their contracts; `laws` states what
//! holds across functions. Three calls into other crates, for the choices
//! of tiles, the shuffling of the wall and a power of two, stand behind
//! functions whose contracts are trusted, and say so.

pub mod calls;
pub mod candidates;
pub mod complete;
pub mod decompose;
pub mod hand;
pub mod laws;
pub mod melds;
pub mod order;
pub mod partial;
pub mod player;
pub mod round;
pub mod score;
pub mod strategy;
pub mod table;
pub mod text;
pub mod tile;
