pub mod text;
pub mod hash;
pub mod paths;
pub mod files;
pub mod catalog;
pub mod install;
pub mod config;
pub mod library;
pub mod matching;
pub mod model;
pub mod game;
pub mod thumbs;
pub mod gallery;
pub mod progress;
pub mod atomic;
pub mod ui;
pub mod fetch;
pub mod json;
pub mod order;
pub mod shelves;
pub mod deck;
pub mod panels;
pub mod moves;
