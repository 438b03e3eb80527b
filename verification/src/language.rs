use vstd::prelude::*;

verus! {

/// Languages offered for stemming.
#[derive(Clone, Copy, PartialEq, Eq, Structural, Debug)]
pub enum StemmingLanguage {
    English,
    Russian,
    German,
    French,
    Spanish,
    Italian,
    Dutch,
    Portuguese,
}

/// The lower-case English name of a language.
pub open spec fn language_name(l: StemmingLanguage) -> Seq<char> {
    match l {
        StemmingLanguage::English => "english"@,
        StemmingLanguage::Russian => "russian"@,
        StemmingLanguage::German => "german"@,
        StemmingLanguage::French => "french"@,
        StemmingLanguage::Spanish => "spanish"@,
        StemmingLanguage::Italian => "italian"@,
        StemmingLanguage::Dutch => "dutch"@,
        StemmingLanguage::Portuguese => "portuguese"@,
    }
}

impl StemmingLanguage {
    /// The lower-case English name of the language, such as `"english"`.
    pub fn get_name(&self) -> (n: &'static str)
        ensures
            n@ == language_name(*self),
    {
        match self {
            StemmingLanguage::English => "english",
            StemmingLanguage::Russian => "russian",
            StemmingLanguage::German => "german",
            StemmingLanguage::French => "french",
            StemmingLanguage::Spanish => "spanish",
            StemmingLanguage::Italian => "italian",
            StemmingLanguage::Dutch => "dutch",
            StemmingLanguage::Portuguese => "portuguese",
        }
    }
}

} // verus!
