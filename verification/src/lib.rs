//! Rules of a road-map strategy game: world, players, connections and the server
//! around them.
pub mod account_laws;
pub mod accounts;
pub mod battle;
pub mod body;
pub mod boundary;
pub mod buildings;
pub mod cells;
pub mod clock;
pub mod colors;
pub mod components;
pub mod connection_laws;
pub mod connections;
pub mod construction;
pub mod economy;
pub mod economy_laws;
pub mod errors;
pub mod features;
pub mod freshness;
pub mod geometry;
pub mod heap;
pub mod json;
pub mod leaderboard;
pub mod live;
pub mod loading;
pub mod map_laws;
pub mod missiles;
pub mod numeric;
pub mod passwords;
pub mod prepare;
pub mod prepare_laws;
pub mod production;
pub mod refresh;
pub mod region_laws;
pub mod repo;
pub mod requests;
pub mod roads;
pub mod search;
pub mod sorting;
pub mod spending_laws;
pub mod state;
pub mod table;
pub mod text;
pub mod text_laws;
pub mod tick_laws;
pub mod ticks;
pub mod tile_laws;
pub mod tiles;
pub mod walks;
pub mod web;
pub mod web_laws;
pub mod world;
