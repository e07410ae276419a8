//! The state the front end keeps while a search runs: what is being searched,
//! the live progress counters, the liveness of each worker, and the summary of
//! a finished search.  Channels, clocks and widgets live outside the library;
//! the front end mirrors its received events into these records, so times are
//! held as plain nanosecond counts.

use vstd::prelude::*;

verus! {

/// The record of a running search, updated from the progress and dead-worker
/// signals as they arrive.
pub struct SearchingInfo {
    pub search_from: String,
    pub search_to: String,
    pub num_of_processed: usize,
    pub num_in_queue: usize,
    pub threads: usize,
    /// One flag per worker: true while the worker is alive.
    pub threads_state: Vec<bool>,
    /// Time spent so far, in nanoseconds, as measured outside the library.
    pub elapsed_nanos: u64,
}

impl SearchingInfo {
    /// A fresh record: nothing processed or queued yet, every worker alive.
    pub fn new(from: &str, to: &str, threads: usize) -> (r: Self)
        ensures
            r.search_from@ == from@,
            r.search_to@ == to@,
            r.num_of_processed == 0,
            r.num_in_queue == 0,
            r.threads == threads,
            r.threads_state@.len() == threads,
            forall|i: int| 0 <= i < r.threads_state@.len() ==> r.threads_state@[i] == true,
            r.elapsed_nanos == 0,
    {
        SearchingInfo {
            search_from: from.to_owned(),
            search_to: to.to_owned(),
            num_of_processed: 0,
            num_in_queue: 0,
            threads,
            threads_state: vec![true; threads],
            elapsed_nanos: 0,
        }
    }
}

/// The summary of a finished search, shown until a new one starts.
pub struct FoundInfo {
    pub search_from: String,
    pub search_to: String,
    pub used_threads: usize,
    pub num_of_processed: usize,
    /// How long the search ran, in nanoseconds.
    pub duration_nanos: u64,
    pub path: Vec<String>,
}

impl FoundInfo {
    /// Close out a running search with the path it produced.
    pub fn new(searching_info: &SearchingInfo, path: Vec<String>) -> (r: Self)
        ensures
            r.search_from@ == searching_info.search_from@,
            r.search_to@ == searching_info.search_to@,
            r.used_threads == searching_info.threads,
            r.num_of_processed == searching_info.num_of_processed,
            r.duration_nanos == searching_info.elapsed_nanos,
            r.path == path,
    {
        FoundInfo {
            search_from: searching_info.search_from.clone(),
            search_to: searching_info.search_to.clone(),
            used_threads: searching_info.threads,
            num_of_processed: searching_info.num_of_processed,
            duration_nanos: searching_info.elapsed_nanos,
            path,
        }
    }
}

/// What the front end is doing: taking input, watching a search, or showing
/// its outcome.
pub enum State {
    Input,
    Searching(SearchingInfo),
    Found(FoundInfo),
}

/// The whole front-end state: the current screen plus the three input fields.
pub struct TemplateApp {
    pub state: State,
    pub search_from: String,
    pub search_to: String,
    pub threads: String,
}

impl core::default::Default for TemplateApp {
    /// The input screen, with a sample pair of pages filled in and one worker.
    fn default() -> (r: Self)
        ensures
            r.state is Input,
            r.search_from@ == "https://en.wikipedia.org/wiki/Dave_Hollins"@,
            r.search_to@ == "https://en.wikipedia.org/wiki/Dab_(dance)"@,
            r.threads@ == "1"@,
    {
        TemplateApp {
            state: State::Input,
            search_from: "https://en.wikipedia.org/wiki/Dave_Hollins".to_owned(),
            search_to: "https://en.wikipedia.org/wiki/Dab_(dance)".to_owned(),
            threads: "1".to_owned(),
        }
    }
}

/// The value of a decimal digit, and nothing for any other character.
pub open spec fn digit_of(c: char) -> Option<int> {
    match c {
        '0' => Some(0),
        '1' => Some(1),
        '2' => Some(2),
        '3' => Some(3),
        '4' => Some(4),
        '5' => Some(5),
        '6' => Some(6),
        '7' => Some(7),
        '8' => Some(8),
        '9' => Some(9),
        _ => None,
    }
}

pub open spec fn all_digits(s: Seq<char>) -> bool {
    forall|i: int| 0 <= i < s.len() ==> (#[trigger] digit_of(s[i])) is Some
}

/// The number a string of digits denotes.
pub open spec fn digits_value(s: Seq<char>) -> int
    decreases s.len(),
{
    if s.len() == 0 {
        0
    } else {
        10 * digits_value(s.drop_last()) + digit_of(s.last())->0
    }
}

/// A worker-count entry is accepted when it is all digits and denotes a count
/// between one and one hundred.
pub open spec fn valid_thread_count(s: Seq<char>) -> bool {
    s.len() > 0 && all_digits(s) && 1 <= digits_value(s) <= 100
}

proof fn lemma_digits_value_nonneg(s: Seq<char>)
    requires
        all_digits(s),
    ensures
        digits_value(s) >= 0,
    decreases s.len(),
{
    if s.len() > 0 {
        assert(all_digits(s.drop_last()));
        lemma_digits_value_nonneg(s.drop_last());
    }
}

/// Reading more digits never shrinks the denoted number.
proof fn lemma_digits_value_extend_ge(s: Seq<char>, i: int)
    requires
        all_digits(s),
        0 <= i <= s.len(),
    ensures
        digits_value(s) >= digits_value(s.take(i)),
    decreases s.len() - i,
{
    if i < s.len() {
        assert(s.take(i + 1).drop_last() =~= s.take(i));
        assert(s.take(i + 1).last() == s[i]);
        assert(all_digits(s.take(i)));
        lemma_digits_value_nonneg(s.take(i));
        assert(digits_value(s.take(i + 1)) == 10 * digits_value(s.take(i)) + digit_of(s[i])->0);
        lemma_digits_value_extend_ge(s, i + 1);
    } else {
        assert(s.take(i) =~= s);
    }
}

/// Parse a worker-count entry.  Exactly the strings of digits that denote a
/// count between one and one hundred are accepted; everything else — an empty
/// entry, a stray character, zero, or anything past one hundred — is refused.
pub fn parse_thread_count(digits: &Vec<char>) -> (r: Option<usize>)
    ensures
        r is Some <==> valid_thread_count(digits@),
        r matches Some(v) ==> v == digits_value(digits@) && 1 <= v <= 100,
{
    let n = digits.len();
    if n == 0 {
        return None;
    }
    let mut acc: usize = 0;
    let mut i: usize = 0;
    while i < n
        invariant
            n == digits@.len(),
            0 <= i <= n,
            all_digits(digits@.take(i as int)),
            acc == digits_value(digits@.take(i as int)),
            acc <= 100,
        decreases n - i,
    {
        let c = digits[i];
        let d: usize = match c {
            '0' => 0,
            '1' => 1,
            '2' => 2,
            '3' => 3,
            '4' => 4,
            '5' => 5,
            '6' => 6,
            '7' => 7,
            '8' => 8,
            '9' => 9,
            _ => {
                proof {
                    assert(digit_of(digits@[i as int]) is None);
                    assert(!all_digits(digits@));
                }
                return None;
            },
        };
        proof {
            assert(digits@.take(i + 1).drop_last() =~= digits@.take(i as int));
            assert(digits@.take(i + 1).last() == digits@[i as int]);
        }
        acc = acc * 10 + d;
        i = i + 1;
        if acc > 100 {
            proof {
                if valid_thread_count(digits@) {
                    lemma_digits_value_extend_ge(digits@, i as int);
                }
            }
            return None;
        }
    }
    proof {
        assert(digits@.take(n as int) =~= digits@);
    }
    if acc == 0 {
        None
    } else {
        Some(acc)
    }
}

} // verus!
