//! A solver for type inhabitation: given a type, it searches for a term of that type.

pub mod ab;
pub mod alike;
pub mod backtrack;
pub mod choices;
pub mod components;
pub mod constraint;
pub mod counts;
pub mod data;
pub mod display;
pub mod elaborate;
pub mod equality;
pub mod es;
pub mod exchange;
pub mod expansion;
pub mod frames;
pub mod fresh;
pub mod guard;
pub mod handover;
pub mod ids;
pub mod independence;
pub mod index;
pub mod ir;
pub mod lean;
pub mod legible;
pub mod matching;
pub mod memory;
pub mod meta;
pub mod moves;
pub mod names;
pub mod normal;
pub mod problem;
pub mod propagation;
pub mod proposal;
pub mod prover;
pub mod readback;
pub mod reading;
pub mod refine;
pub mod replay;
pub mod reply;
pub mod roundtrip;
pub mod scoping;
pub mod search;
pub mod session;
pub mod settled;
pub mod shown;
pub mod solutions;
pub mod soundness;
pub mod stack;
pub mod stats;
pub mod steps;
pub mod survey;
pub mod term;
pub mod text;
pub mod typed;
pub mod types;
pub mod undo;
pub mod verdict;
