//! Simulation core of a hex-grid territory-control tactics game.
//!
//! The world is a map of hexagonal tiles with control points, a blocking set
//! for line of sight and a fog-of-war visibility set. Squads of units move
//! along computed paths, fire at the nearest enemy, capture control points
//! and build or tear down walls and turrets. An opponent raises squads of
//! its own and plays by the same rules.
//!
//! Time is counted in whole microseconds; one call of an `update` function
//! advances one frame. Hits dealt in one update are taken at the start of
//! the next update of the side they go to.
//!
//! Every type with inner state has a view, the state as the rules see it,
//! and every update is stated as a function from the views before to the
//! views after: `Tick::updated` for a squad, `Bot::updated` and
//! `PlayerView::updated` for the two sides, `GameView::updated` for a game.
//! What is drawn at random, the walls and control points of a generated
//! world and the place where the opponent arrives, is stated by what holds
//! of every draw.
//!
//! - `structs`: positions, teams, unit types and their capability table, tiles
//! - `grid`: directions, adjacency, distances, the line of sight
//! - `dice`: the random numbers
//! - `unit`, `squad`: a combatant, and a group of them under one order
//! - `level`, `terrain`: the world, and how one is generated
//! - `army`: what both sides do alike with their squads
//! - `bot`, `player`, `game`: the two sides, and a game between them

pub mod structs;
pub mod grid;
pub mod dice;
pub mod unit;
pub mod level;
pub mod terrain;
pub mod squad;
pub mod army;
pub mod bot;
pub mod player;
pub mod game;
