//! Frequency statistics over a Japanese text corpus: how often each surface
//! form of a verb (including inflected variants) occurs, and how often each
//! recognized inflectional suffix pattern fires.
//!
//! The pipeline: raw text is split into boundary-delimited fragments, each
//! fragment is tokenized by an external morphological analyzer, a greedy
//! priority-ordered scanner merges runs of suffix tokens after a verb into a
//! single inflected surface form, and two-level frequency tables aggregate
//! counts across records.

pub mod merge;
pub mod pipeline;
pub mod rules;
pub mod segment;
pub mod surface;
pub mod tally;
pub mod token;
