//! Production planning for a factory-building game.
//!
//! Given a catalog of recipes and machines, [`calculator::ProductionCalculator`]
//! answers one question: to make an item at a wanted rate, how many machines of
//! which type does every item of its dependency chain need, and how much power
//! does the whole factory draw.
//!
//! All rates are whole numbers of one unit of the caller's choosing (items per
//! minute, or thousandths of them): machine counts do not depend on the unit, and
//! every demanded rate comes back in it. Power is counted in the unit in which
//! the machines' draw is given.
//!
//! The modules, from the ground up: [`item`] and [`recipe`] hold the entries of
//! the catalogs, [`catalog`] says when catalogs are sound, [`calculator`] keeps
//! sound catalogs and answers lookups, [`chain`] and [`tally`] describe the
//! dependency chain of a query and the sums over it, [`expand`] computes them,
//! [`report`] holds the result, and [`laws`] proves what holds of every query.
pub mod calculator;
pub mod catalog;
pub mod chain;
pub mod expand;
mod grading;
pub mod item;
pub mod laws;
pub mod recipe;
pub mod report;
pub mod tally;
