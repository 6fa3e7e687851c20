use vstd::prelude::*;
use crate::progress::Progress;
use crate::random::Dice;
use crate::word_list::{self, not_enough_message, usable, Candidate, SearchError, SearchType, MIN_WORDS};
use crate::word_search::{
    self, count_fitting, is_build_of, placeable_alone, WordSearch, MAX_PLACEMENT_CALLS,
};

verus! {

/// How many independent builds a request gets.
pub const ATTEMPTS: usize = 10;

/// One puzzle to make: the seed word, the relation, how many words to hide
/// and the grid's size.
#[derive(Clone, Debug)]
pub struct WordSearchRequest {
    pub word: String,
    pub stype: SearchType,
    pub max_count: usize,
    pub height: usize,
    pub width: usize,
}

/// A finished puzzle with its heading.
#[derive(Clone, Debug)]
pub struct TitledWordSearch {
    pub title: String,
    pub word_search: WordSearch,
}

pub open spec fn title_text(word: Seq<char>, stype: SearchType) -> Seq<char> {
    match stype {
        SearchType::RelatedTo => word,
        SearchType::RhymesWith => "Rhymes with "@ + word,
        SearchType::EndsWith => "Ends with -"@ + word,
        SearchType::SoundsLike => "Sounds like "@ + word,
        SearchType::BlankWord => "____ "@ + word,
        SearchType::WordBlank => word + " ____"@,
    }
}

/// The heading of a puzzle on `word` in relation `stype`.
pub fn title_for(word: &str, stype: SearchType) -> (r: String)
    ensures
        r@ == title_text(word@, stype),
{
    match stype {
        SearchType::RelatedTo => String::from_str(word),
        SearchType::RhymesWith => String::from_str("Rhymes with ").concat(word),
        SearchType::EndsWith => String::from_str("Ends with -").concat(word),
        SearchType::SoundsLike => String::from_str("Sounds like ").concat(word),
        SearchType::BlankWord => String::from_str("____ ").concat(word),
        SearchType::WordBlank => String::from_str(word).concat(" ____"),
    }
}

pub open spec fn sum_counts(requests: Seq<WordSearchRequest>) -> int
    decreases requests.len(),
{
    if requests.len() == 0 {
        0
    } else {
        sum_counts(requests.drop_last()) + requests.last().max_count
    }
}

/// The number of placements a batch expects: the sum of the requests'
/// word counts, saturated at `u32::MAX`.
pub fn calc_total(requests: &Vec<WordSearchRequest>) -> (r: u32)
    ensures
        r == (if sum_counts(requests@) <= u32::MAX { sum_counts(requests@) } else { u32::MAX as int }),
{
    let mut total: u32 = 0;
    let mut i: usize = 0;
    while i < requests.len()
        invariant
            i <= requests@.len(),
            total == (if sum_counts(requests@.subrange(0, i as int)) <= u32::MAX {
                sum_counts(requests@.subrange(0, i as int))
            } else {
                u32::MAX as int
            }),
            sum_counts(requests@.subrange(0, i as int)) >= 0,
        decreases requests@.len() - i,
    {
        assert(requests@.subrange(0, i as int + 1).drop_last() =~= requests@.subrange(0, i as int));
        let c = requests[i].max_count;
        if c >= (u32::MAX - total) as usize {
            total = u32::MAX;
        } else {
            total = total + c as u32;
        }
        i = i + 1;
    }
    assert(requests@.subrange(0, requests@.len() as int) =~= requests@);
    total
}

/// The index of the attempt that placed the most words, the earliest on a tie.
pub fn pick_best(attempts: &Vec<WordSearch>) -> (r: usize)
    requires
        attempts@.len() > 0,
    ensures
        r < attempts@.len(),
        forall|k: int|
            0 <= k < attempts@.len() ==> (#[trigger] attempts@[k]).word_list@.len()
                <= attempts@[r as int].word_list@.len(),
        forall|k: int|
            0 <= k < r ==> (#[trigger] attempts@[k]).word_list@.len()
                < attempts@[r as int].word_list@.len(),
{
    let mut best: usize = 0;
    let mut i: usize = 1;
    while i < attempts.len()
        invariant
            1 <= i <= attempts@.len(),
            best < i,
            forall|k: int|
                0 <= k < i ==> (#[trigger] attempts@[k]).word_list@.len()
                    <= attempts@[best as int].word_list@.len(),
            forall|k: int|
                0 <= k < best ==> (#[trigger] attempts@[k]).word_list@.len()
                    < attempts@[best as int].word_list@.len(),
        decreases attempts@.len() - i,
    {
        if attempts[i].word_list.len() > attempts[best].word_list.len() {
            best = i;
        }
        i = i + 1;
    }
    best
}

pub open spec fn no_grid_message() -> Seq<char> {
    "The requested word search could not be generated (try increasing the field size)"@
}

/// Builds `ATTEMPTS` puzzles from `word_list` and keeps the one that placed
/// the most words; an error when every attempt ran out of placement calls.
pub fn get_word_search(
    word_list: &Vec<String>,
    max_count: usize,
    width: usize,
    height: usize,
    dice: &mut Dice,
    progress: &Progress,
) -> (r: Result<WordSearch, SearchError>)
    requires
        width >= 1,
        height >= 1,
    ensures
        r matches Ok(ws) ==> is_build_of(ws, word_list@, max_count as int, width as int, height as int),
        r is Err ==> count_fitting(word_list@, width as int, height as int) > MAX_PLACEMENT_CALLS,
        r matches Err(e) ==> e == SearchError::MyError(e->MyError_0) && e.text() == no_grid_message(),
        max_count >= 1 && count_fitting(word_list@, width as int, height as int) <= MAX_PLACEMENT_CALLS
            && (exists|j: int|
            0 <= j < word_list@.len() && #[trigger] placeable_alone(
                word_list@[j]@,
                width as int,
                height as int,
            )) ==> (r matches Ok(ws) && ws.word_list@.len() >= 1),
{
    let ghost sure = max_count >= 1 && count_fitting(word_list@, width as int, height as int)
        <= MAX_PLACEMENT_CALLS && (exists|j: int|
        0 <= j < word_list@.len() && #[trigger] placeable_alone(word_list@[j]@, width as int, height as int));
    let mut attempts: Vec<WordSearch> = Vec::new();
    let mut n: usize = 0;
    while n < ATTEMPTS
        invariant
            width >= 1,
            height >= 1,
            attempts@.len() == 0 ==> n == 0 || count_fitting(word_list@, width as int, height as int)
                > MAX_PLACEMENT_CALLS,
            sure == (max_count >= 1 && count_fitting(word_list@, width as int, height as int)
                <= MAX_PLACEMENT_CALLS && (exists|j: int|
                0 <= j < word_list@.len() && #[trigger] placeable_alone(
                    word_list@[j]@,
                    width as int,
                    height as int,
                ))),
            forall|k: int|
                0 <= k < attempts@.len() ==> is_build_of(
                    #[trigger] attempts@[k],
                    word_list@,
                    max_count as int,
                    width as int,
                    height as int,
                ),
            sure ==> forall|k: int| 0 <= k < attempts@.len() ==> (#[trigger] attempts@[k]).word_list@.len() >= 1,
        decreases ATTEMPTS - n,
    {
        match word_search::generate(word_list, max_count, width, height, dice, progress) {
            Some(ws) => {
                attempts.push(ws);
            },
            None => {},
        }
        n = n + 1;
    }
    if attempts.len() == 0 {
        return Err(
            SearchError::MyError(
                String::from_str(
                    "The requested word search could not be generated (try increasing the field size)",
                ),
            ),
        );
    }
    let best = pick_best(&attempts);
    proof {
        if sure {
            assert(attempts@[0].word_list@.len() >= 1);
        }
    }
    let ws = attempts.remove(best);
    Ok(ws)
}

/// `t` is a puzzle for `req` given the word source's answer: its heading,
/// and a build from some ordering of the usable candidates.
pub open spec fn answers(req: WordSearchRequest, lookup: Result<Vec<Candidate>, SearchError>, t: TitledWordSearch) -> bool {
    &&& t.title@ == title_text(req.word@, req.stype)
    &&& lookup matches Ok(c) && exists|words: Seq<String>|
        words.to_multiset() == usable(c@).to_multiset() && #[trigger] is_build_of(
            t.word_search,
            words,
            req.max_count as int,
            req.width as int,
            req.height as int,
        )
}

/// `msg` is the failure of `req` given what the word source answered: the
/// lookup's own error, too few usable words, or no successful attempt.
pub open spec fn fails_with(
    req: WordSearchRequest,
    lookup: Result<Vec<Candidate>, SearchError>,
    msg: Seq<char>,
) -> bool {
    match lookup {
        Err(e) => msg == e.text(),
        Ok(c) => if usable(c@).len() < MIN_WORDS {
            msg == not_enough_message(req.word@)
        } else {
            msg == no_grid_message() && usable(c@).len() > MAX_PLACEMENT_CALLS
        },
    }
}

/// A lookup on which a request is bound to succeed: enough usable words,
/// and few enough that no build can run out of placement calls.
pub open spec fn sure_to_succeed(lookup: Result<Vec<Candidate>, SearchError>) -> bool {
    lookup matches Ok(c) && MIN_WORDS <= usable(c@).len() <= MAX_PLACEMENT_CALLS
}

/// A lookup on which a request is bound to fail: an error, or too few usable words.
pub open spec fn sure_to_fail(lookup: Result<Vec<Candidate>, SearchError>) -> bool {
    lookup is Err || (lookup matches Ok(c) && usable(c@).len() < MIN_WORDS)
}

/// A lookup on which a request is bound to give a puzzle with at least one
/// word: it is sure to succeed, asks for a word, and some usable candidate
/// fits an empty grid.
pub open spec fn sure_to_place(req: WordSearchRequest, lookup: Result<Vec<Candidate>, SearchError>) -> bool {
    &&& sure_to_succeed(lookup)
    &&& req.max_count >= 1
    &&& lookup matches Ok(c) && exists|j: int|
        0 <= j < usable(c@).len() && #[trigger] placeable_alone(
            usable(c@)[j]@,
            req.width as int,
            req.height as int,
        )
}

/// What one request comes to, given the word source's answer to it.
pub open spec fn request_outcome(
    req: WordSearchRequest,
    lookup: Result<Vec<Candidate>, SearchError>,
    r: Result<TitledWordSearch, String>,
) -> bool {
    &&& r matches Ok(t) ==> answers(req, lookup, t)
    &&& r matches Err(m) ==> fails_with(req, lookup, m@)
    &&& sure_to_fail(lookup) ==> r is Err
    &&& sure_to_succeed(lookup) ==> r is Ok
    &&& sure_to_place(req, lookup) ==> (r matches Ok(t) && t.word_search.word_list@.len() >= 1)
}

proof fn lemma_count_le_len(words: Seq<String>, w: int, h: int)
    ensures
        count_fitting(words, w, h) <= words.len(),
    decreases words.len(),
{
    if words.len() > 0 {
        lemma_count_le_len(words.drop_last(), w, h);
    }
}

/// Turns one request and the word source's answer to it into a puzzle, or
/// into the text of why there is none.
pub fn process_request(
    request: &WordSearchRequest,
    lookup: &Result<Vec<Candidate>, SearchError>,
    dice: &mut Dice,
    progress: &Progress,
) -> (r: Result<TitledWordSearch, String>)
    requires
        request.width >= 1,
        request.height >= 1,
    ensures
        request_outcome(*request, *lookup, r),
{
    let candidates = match lookup {
        Ok(c) => c,
        Err(e) => {
            return Err(e.message());
        },
    };
    let words = match word_list::generate(candidates, request.word.as_str(), dice) {
        Ok(v) => v,
        Err(e) => {
            return Err(e.message());
        },
    };
    let ghost w = request.width as int;
    let ghost h = request.height as int;
    proof {
        words@.to_multiset_ensures();
        usable(candidates@).to_multiset_ensures();
        lemma_count_le_len(words@, w, h);
        if sure_to_place(*request, *lookup) {
            let j = choose|j: int|
                0 <= j < usable(candidates@).len() && #[trigger] placeable_alone(usable(candidates@)[j]@, w, h);
            let s = usable(candidates@)[j];
            assert(usable(candidates@).contains(s));
            assert(words@.to_multiset().count(s) > 0);
            assert(words@.contains(s));
            let k = choose|k: int| 0 <= k < words@.len() && words@[k] == s;
            assert(placeable_alone(words@[k]@, w, h));
        }
    }
    match get_word_search(&words, request.max_count, request.width, request.height, dice, progress) {
        Ok(ws) => {
            let title = title_for(request.word.as_str(), request.stype);
            let t = TitledWordSearch { title, word_search: ws };
            proof {
                assert(is_build_of(t.word_search, words@, request.max_count as int, w, h));
            }
            Ok(t)
        },
        Err(e) => Err(e.message()),
    }
}

/// The puzzles among `rs`, in order.
pub open spec fn oks(rs: Seq<Result<TitledWordSearch, String>>) -> Seq<TitledWordSearch>
    decreases rs.len(),
{
    if rs.len() == 0 {
        Seq::empty()
    } else {
        match rs.last() {
            Ok(t) => oks(rs.drop_last()).push(t),
            Err(_) => oks(rs.drop_last()),
        }
    }
}

/// The error texts among `rs`, in order.
pub open spec fn errs(rs: Seq<Result<TitledWordSearch, String>>) -> Seq<String>
    decreases rs.len(),
{
    if rs.len() == 0 {
        Seq::empty()
    } else {
        match rs.last() {
            Ok(_) => errs(rs.drop_last()),
            Err(m) => errs(rs.drop_last()).push(m),
        }
    }
}

/// `puzzles` and `errors` split, in request order, the outcomes `rs` of the
/// requests, one outcome per request.
pub open spec fn batch_outcome(
    requests: Seq<WordSearchRequest>,
    lookups: Seq<Result<Vec<Candidate>, SearchError>>,
    rs: Seq<Result<TitledWordSearch, String>>,
    puzzles: Seq<TitledWordSearch>,
    errors: Seq<String>,
) -> bool {
    &&& rs.len() == requests.len()
    &&& forall|k: int| 0 <= k < rs.len() ==> request_outcome(requests[k], lookups[k], #[trigger] rs[k])
    &&& puzzles == oks(rs)
    &&& errors == errs(rs)
}

proof fn lemma_split_len(rs: Seq<Result<TitledWordSearch, String>>)
    ensures
        oks(rs).len() + errs(rs).len() == rs.len(),
    decreases rs.len(),
{
    if rs.len() > 0 {
        lemma_split_len(rs.drop_last());
    }
}

/// Turns a batch of requests, with the word source's answer to each, into
/// puzzles and error texts, both in request order: each request adds its
/// puzzle or its error, and a failed request does not stop the batch.
/// `progress` is marked running with the batch's expected total before the
/// first request and reset and marked finished after the last.
pub fn handle_requests(
    requests: &Vec<WordSearchRequest>,
    lookups: &Vec<Result<Vec<Candidate>, SearchError>>,
    dice: &mut Dice,
    progress: &Progress,
) -> (r: (Vec<TitledWordSearch>, Vec<String>))
    requires
        lookups@.len() == requests@.len(),
        forall|k: int|
            0 <= k < requests@.len() ==> (#[trigger] requests@[k]).width >= 1
                && requests@[k].height >= 1,
    ensures
        r.0@.len() + r.1@.len() == requests@.len(),
        exists|rs: Seq<Result<TitledWordSearch, String>>| #[trigger] batch_outcome(
            requests@,
            lookups@,
            rs,
            r.0@,
            r.1@,
        ),
{
    progress.start_batch(calc_total(requests));
    let mut puzzles: Vec<TitledWordSearch> = Vec::new();
    let mut errors: Vec<String> = Vec::new();
    let ghost mut rs: Seq<Result<TitledWordSearch, String>> = Seq::empty();
    let mut i: usize = 0;
    while i < requests.len()
        invariant
            i <= requests@.len(),
            lookups@.len() == requests@.len(),
            forall|k: int|
                0 <= k < requests@.len() ==> (#[trigger] requests@[k]).width >= 1
                    && requests@[k].height >= 1,
            rs.len() == i,
            forall|k: int| 0 <= k < i ==> request_outcome(requests@[k], lookups@[k], #[trigger] rs[k]),
            puzzles@ == oks(rs),
            errors@ == errs(rs),
        decreases requests@.len() - i,
    {
        let res = process_request(&requests[i], &lookups[i], dice, progress);
        let ghost old_rs = rs;
        proof {
            rs = rs.push(res);
            assert(rs.drop_last() =~= old_rs);
            assert(rs.last() == res);
        }
        match res {
            Ok(t) => {
                puzzles.push(t);
            },
            Err(m) => {
                errors.push(m);
            },
        }
        proof {
            assert forall|k: int| 0 <= k < i + 1 implies request_outcome(
                requests@[k],
                lookups@[k],
                #[trigger] rs[k],
            ) by {
                if k < i {
                    assert(rs[k] == old_rs[k]);
                }
            }
        }
        i = i + 1;
    }
    proof {
        lemma_split_len(rs);
        assert(batch_outcome(requests@, lookups@, rs, puzzles@, errors@));
    }
    progress.finish_batch();
    (puzzles, errors)
}

} // verus!
