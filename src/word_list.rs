use vstd::prelude::*;
use crate::random::Dice;

verus! {

/// The lexical relation a puzzle's words have to its seed word.
#[derive(Clone, Copy, Debug, PartialEq, Eq, Structural)]
pub enum SearchType {
    RelatedTo,
    RhymesWith,
    EndsWith,
    SoundsLike,
    /// Words that come before the seed word.
    BlankWord,
    /// Words that follow the seed word.
    WordBlank,
}

/// Why a request produced no puzzle.
#[derive(Clone, Debug)]
pub enum SearchError {
    /// The word source could not be reached.
    InternetError(String),
    /// The word source answered with something unreadable.
    OtherError(String),
    /// Too few usable words, or no attempt at a grid succeeded.
    MyError(String),
}

impl SearchError {
    pub open spec fn text(&self) -> Seq<char> {
        match self {
            SearchError::InternetError(m) => m@,
            SearchError::OtherError(m) => m@,
            SearchError::MyError(m) => m@,
        }
    }

    /// The error as text.
    pub fn message(&self) -> (r: String)
        ensures
            r@ == self.text(),
    {
        match self {
            SearchError::InternetError(m) => m.clone(),
            SearchError::OtherError(m) => m.clone(),
            SearchError::MyError(m) => m.clone(),
        }
    }
}

/// One word offered by the word source, with whether its frequency tag was
/// present and within the usable range.
#[derive(Clone, Debug)]
pub struct Candidate {
    pub word: String,
    pub frequency_ok: bool,
}

/// The fewest usable words a request can go on with.
pub const MIN_WORDS: usize = 8;

/// The query argument that selects a relation.
pub open spec fn query_arg(word: Seq<char>, search_type: SearchType) -> Seq<char> {
    match search_type {
        SearchType::RelatedTo => "rel_trg="@ + word,
        SearchType::RhymesWith => "rel_rhy="@ + word,
        SearchType::EndsWith => "sp=*"@ + word,
        SearchType::SoundsLike => "sl="@ + word,
        SearchType::BlankWord => "rel_bgb="@ + word,
        SearchType::WordBlank => "rel_bga="@ + word,
    }
}

pub open spec fn query_url(word: Seq<char>, search_type: SearchType) -> Seq<char> {
    "https://api.datamuse.com/words?"@ + query_arg(word, search_type) + "&md=f"@
}

/// The address that asks the word source for words in relation
/// `search_type` to `word`, with their frequency tags.
pub fn create_query(word: &str, search_type: SearchType) -> (r: String)
    ensures
        r@ == query_url(word@, search_type),
{
    let mut arg = match search_type {
        SearchType::RelatedTo => String::from_str("rel_trg="),
        SearchType::RhymesWith => String::from_str("rel_rhy="),
        SearchType::EndsWith => String::from_str("sp=*"),
        SearchType::SoundsLike => String::from_str("sl="),
        SearchType::BlankWord => String::from_str("rel_bgb="),
        SearchType::WordBlank => String::from_str("rel_bga="),
    };
    arg.append(word);
    let mut url = String::from_str("https://api.datamuse.com/words?");
    url.append(arg.as_str());
    url.append("&md=f");
    url
}

/// The candidates worth keeping: a usable frequency and more than one character.
pub open spec fn usable(cands: Seq<Candidate>) -> Seq<String>
    decreases cands.len(),
{
    if cands.len() == 0 {
        Seq::empty()
    } else {
        let rest = usable(cands.drop_last());
        let c = cands.last();
        if c.frequency_ok && c.word@.len() > 1 {
            rest.push(c.word)
        } else {
            rest
        }
    }
}

pub open spec fn not_enough_message(start_word: Seq<char>) -> Seq<char> {
    "Not enough words could be found for \""@ + start_word
        + "\", please try a different word or category"@
}

/// The usable words among `candidates`, in random order; an error naming
/// `start_word` when fewer than `MIN_WORDS` remain.
pub fn generate(candidates: &Vec<Candidate>, start_word: &str, dice: &mut Dice) -> (r: Result<
    Vec<String>,
    SearchError,
>)
    ensures
        r is Ok <==> usable(candidates@).len() >= MIN_WORDS,
        r matches Ok(v) ==> v@.to_multiset() == usable(candidates@).to_multiset(),
        r matches Err(e) ==> e == SearchError::MyError(e->MyError_0) && e.text() == not_enough_message(
            start_word@,
        ),
{
    let mut words: Vec<String> = Vec::new();
    let mut i: usize = 0;
    while i < candidates.len()
        invariant
            i <= candidates@.len(),
            words@ == usable(candidates@.subrange(0, i as int)),
        decreases candidates@.len() - i,
    {
        assert(candidates@.subrange(0, i as int + 1).drop_last() =~= candidates@.subrange(0, i as int));
        let c = &candidates[i];
        if c.frequency_ok && c.word.as_str().unicode_len() > 1 {
            words.push(c.word.clone());
        }
        i = i + 1;
    }
    assert(candidates@.subrange(0, candidates@.len() as int) =~= candidates@);
    dice.shuffle(&mut words);
    if words.len() < MIN_WORDS {
        let mut msg = String::from_str("Not enough words could be found for \"");
        msg.append(start_word);
        msg.append("\", please try a different word or category");
        return Err(SearchError::MyError(msg));
    }
    Ok(words)
}

} // verus!
