//! Data for the analysis of a language: morpheme data and training material.
use vstd::prelude::*;

verus! {

pub type MorphemeLetter = u8;

pub type MorphemeID = usize;

pub type MorphemeCombinaison = Vec<MorphemeID>;

/// A morpheme is a letter, or a combination of morphemes given by their ids.
#[derive(Copy, Clone, PartialEq, PartialOrd, Debug)]
pub enum MorpheneData<L = MorphemeLetter, C = MorphemeCombinaison> {
    Letter(L),
    Combined(C),
}

/// Where a piece of training data comes from.
#[derive(Clone, PartialEq, Debug)]
pub struct Credits {
    author: Option<String>,
    name: Option<String>,
    years: Option<i32>,
    url: Option<String>,
}

/// A piece of training data and its credits.
#[derive(Clone, PartialEq, Debug)]
pub struct TrainingData {
    pub data: Vec<u8>,
    pub credit: Credits,
}

pub type Corpus = Vec<TrainingData>;

} // verus!
