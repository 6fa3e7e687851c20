use vstd::prelude::*;
use crate::word_list::SearchType;

verus! {

/// The user's saved settings.
#[derive(Clone, Debug)]
pub struct Preferences {
    pub theme: String,
    pub word_count: u8,
    pub letter_count: u8,
    pub format: String,
    pub save_directory: String,
}

impl Preferences {
    /// The settings used when none are saved: dark theme, 15 words on an
    /// 11 by 11 grid, US Letter pages, saved under `./out`.
    pub fn default() -> (r: Preferences)
        ensures
            r.theme@ == "Dark"@,
            r.word_count == 15,
            r.letter_count == 11,
            r.format@ == "Letter"@,
            r.save_directory@ == "./out"@,
    {
        Preferences {
            theme: String::from_str("Dark"),
            word_count: 15,
            letter_count: 11,
            format: String::from_str("Letter"),
            save_directory: String::from_str("./out"),
        }
    }
}

/// The colour scheme of the interface.
#[derive(Clone, Copy, Debug, PartialEq, Eq, Structural)]
pub enum Theme {
    Light,
    Dark,
}

/// Whether two strings hold the same characters.
pub fn str_eq(a: &str, b: &str) -> (r: bool)
    ensures
        r == (a@ == b@),
{
    let n = a.unicode_len();
    if n != b.unicode_len() {
        return false;
    }
    let mut i: usize = 0;
    while i < n
        invariant
            i <= n,
            n == a@.len(),
            n == b@.len(),
            a@.subrange(0, i as int) == b@.subrange(0, i as int),
        decreases n - i,
    {
        if a.get_char(i) != b.get_char(i) {
            assert(a@[i as int] != b@[i as int]);
            return false;
        }
        assert(a@.subrange(0, i as int + 1) =~= a@.subrange(0, i as int).push(a@[i as int]));
        assert(b@.subrange(0, i as int + 1) =~= b@.subrange(0, i as int).push(b@[i as int]));
        i = i + 1;
    }
    assert(a@ =~= a@.subrange(0, n as int));
    assert(b@ =~= b@.subrange(0, n as int));
    true
}

/// The theme named `name`: `Light` for "Light", `Dark` otherwise.
pub fn get_theme(name: &str) -> (r: Theme)
    ensures
        r == (if name@ == "Light"@ { Theme::Light } else { Theme::Dark }),
{
    if str_eq(name, "Light") {
        Theme::Light
    } else {
        Theme::Dark
    }
}

pub open spec fn search_type_of_label(label: Seq<char>) -> SearchType {
    if label == "Related to [Word]"@ {
        SearchType::RelatedTo
    } else if label == "Rhymes with [Word]"@ {
        SearchType::RhymesWith
    } else if label == "Ends with [Letters]"@ {
        SearchType::EndsWith
    } else if label == "Sounds like [Word]"@ {
        SearchType::SoundsLike
    } else if label == "Comes before [Word]"@ {
        SearchType::BlankWord
    } else {
        SearchType::WordBlank
    }
}

/// The relation that a menu label names; any label not listed means
/// "Follows [Word]".
pub fn get_search_type(label: &str) -> (r: SearchType)
    ensures
        r == search_type_of_label(label@),
{
    if str_eq(label, "Related to [Word]") {
        SearchType::RelatedTo
    } else if str_eq(label, "Rhymes with [Word]") {
        SearchType::RhymesWith
    } else if str_eq(label, "Ends with [Letters]") {
        SearchType::EndsWith
    } else if str_eq(label, "Sounds like [Word]") {
        SearchType::SoundsLike
    } else if str_eq(label, "Comes before [Word]") {
        SearchType::BlankWord
    } else {
        SearchType::WordBlank
    }
}

} // verus!
