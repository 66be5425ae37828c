//! Language profiles: which characters stay attached to words, and how
//! apostrophes split contractions.

use vstd::prelude::*;

verus! {

/// The languages the tokenizer has rules for, by their ISO codes.
#[derive(Debug, PartialEq, Eq, Structural, Clone, Copy)]
pub enum Language {
    As,
    Bn,
    Ca,
    Cs,
    De,
    El,
    En,
    Es,
    Et,
    Fi,
    Fr,
    Ga,
    Gu,
    Hi,
    Hu,
    Is,
    It,
    Kn,
    Lt,
    Lv,
    Ml,
    Mni,
    Mr,
    Nl,
    Or,
    Pa,
    Pl,
    Pt,
    Ro,
    Ru,
    Sk,
    Sl,
    So,
    Sv,
    Ta,
    Tdt,
    Te,
    Yue,
    Zh,
}

/// How a language separates characters that are not letters, digits or the
/// usual word-internal punctuation.
#[derive(Debug, PartialEq, Eq, Structural, Clone, Copy)]
pub enum SplitProfile {
    /// The colon stays inside words before a lowercase letter.
    Colon,
    /// The apostrophe is split off unless a lowercase letter follows.
    Apostrophe,
    /// The middle dot stays inside words before a lowercase letter.
    MiddleDot,
    /// Only the general rule.
    Plain,
}

/// Which side of an apostrophe between two letters gets the space.
#[derive(Debug, PartialEq, Eq, Structural, Clone, Copy)]
pub enum ContractionStyle {
    /// `don't` becomes `don 't`.
    Right,
    /// `l'eau` becomes `l' eau`.
    Left,
    /// An apostrophe between two letters is a glottal stop and stays.
    Glottal,
    /// Every apostrophe becomes a token of its own.
    Separate,
}

pub open spec fn split_profile_of(l: Language) -> SplitProfile {
    match l {
        Language::Fi | Language::Sv => SplitProfile::Colon,
        Language::Tdt => SplitProfile::Apostrophe,
        Language::Ca => SplitProfile::MiddleDot,
        _ => SplitProfile::Plain,
    }
}

pub open spec fn contraction_style_of(l: Language) -> ContractionStyle {
    match l {
        Language::En => ContractionStyle::Right,
        Language::Fr | Language::It | Language::Ga | Language::Ca => ContractionStyle::Left,
        Language::So | Language::Tdt => ContractionStyle::Glottal,
        _ => ContractionStyle::Separate,
    }
}

impl Language {
    pub fn split_profile(&self) -> (r: SplitProfile)
        ensures
            r == split_profile_of(*self),
    {
        match self {
            Language::Fi | Language::Sv => SplitProfile::Colon,
            Language::Tdt => SplitProfile::Apostrophe,
            Language::Ca => SplitProfile::MiddleDot,
            _ => SplitProfile::Plain,
        }
    }

    pub fn contraction_style(&self) -> (r: ContractionStyle)
        ensures
            r == contraction_style_of(*self),
    {
        match self {
            Language::En => ContractionStyle::Right,
            Language::Fr | Language::It | Language::Ga | Language::Ca => ContractionStyle::Left,
            Language::So | Language::Tdt => ContractionStyle::Glottal,
            _ => ContractionStyle::Separate,
        }
    }
}

} // verus!
