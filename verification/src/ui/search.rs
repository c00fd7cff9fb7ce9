//! Searching in the viewer: by content or by file name.

use crate::text::{chars_of, contains, lowercase, lowered, occurs, occurs_at, shorten, shortened};
use vstd::prelude::*;

verus! {

#[derive(Debug, Clone, Copy, PartialEq, Eq, Structural)]
pub enum SearchMode {
    Content,
    Filename,
}

#[derive(Debug, Clone)]
pub struct SearchState {
    pub active: bool,
    pub mode: SearchMode,
    pub query: String,
    pub current_match: usize,
    pub filename_matches: Vec<usize>,
}

/// How far a search has come.
#[verifier::ext_equal]
pub struct SearchModel {
    pub active: bool,
    pub mode: SearchMode,
    pub query: Seq<char>,
    pub current_match: usize,
    pub filename_matches: Seq<usize>,
}

impl View for SearchState {
    type V = SearchModel;

    open spec fn view(&self) -> SearchModel {
        SearchModel {
            active: self.active,
            mode: self.mode,
            query: self.query@,
            current_match: self.current_match,
            filename_matches: self.filename_matches@,
        }
    }
}

/// The texts of a list of string slices.
pub open spec fn names(v: Seq<&str>) -> Seq<Seq<char>> {
    v.map_values(|s: &str| s@)
}

/// Whether a file name holds the query, whatever the case; every name holds the
/// empty query.
pub open spec fn is_match(query: Seq<char>, name: Seq<char>) -> bool {
    query.len() == 0 || occurs(lowercase(name), lowercase(query))
}

/// The indices of the file names that hold the query, in order.
pub open spec fn matching(query: Seq<char>, names: Seq<Seq<char>>) -> Seq<usize>
    decreases names.len(),
{
    if names.len() == 0 {
        Seq::empty()
    } else if is_match(query, names.last()) {
        matching(query, names.drop_last()).push((names.len() - 1) as usize)
    } else {
        matching(query, names.drop_last())
    }
}

impl SearchModel {
    /// No search.
    pub open spec fn idle() -> SearchModel {
        SearchModel {
            active: false,
            mode: SearchMode::Content,
            query: Seq::empty(),
            current_match: 0,
            filename_matches: Seq::empty(),
        }
    }

    /// With nothing searched for yet.
    pub open spec fn emptied(self) -> SearchModel {
        SearchModel { query: Seq::empty(), current_match: 0, filename_matches: Seq::empty(), ..self }
    }
}

impl SearchState {
    pub fn new() -> (r: SearchState)
        ensures
            r@ == SearchModel::idle(),
    {
        let r = SearchState {
            active: false,
            mode: SearchMode::Content,
            query: String::new(),
            current_match: 0,
            filename_matches: Vec::new(),
        };
        assert(r@ =~= SearchModel::idle());
        r
    }

    pub fn clear(&mut self)
        ensures
            final(self)@ == (SearchModel { active: false, ..old(self)@.emptied() }),
    {
        self.active = false;
        self.query = String::new();
        self.current_match = 0;
        self.filename_matches = Vec::new();
        assert(self@ =~= SearchModel { active: false, ..old(self)@.emptied() });
    }

    pub fn start(&mut self, mode: SearchMode)
        ensures
            final(self)@ == (SearchModel { active: true, mode, ..old(self)@.emptied() }),
    {
        self.active = true;
        self.mode = mode;
        self.query = String::new();
        self.current_match = 0;
        self.filename_matches = Vec::new();
        assert(self@ =~= SearchModel { active: true, mode, ..old(self)@.emptied() });
    }

    pub fn push_char(&mut self, c: char)
        ensures
            final(self)@ == (SearchModel { query: old(self)@.query.push(c), ..old(self)@ }),
    {
        self.query.push(c);
    }

    pub fn pop_char(&mut self)
        ensures
            final(self)@ == (SearchModel { query: shortened(old(self)@.query), ..old(self)@ }),
    {
        self.query = shorten(self.query.as_str());
    }

    /// Finds the file names that hold the query. The current match stays where it
    /// is, unless it is past the last one: then it is the first.
    pub fn update_filename_matches(&mut self, file_names: &[&str])
        ensures
            final(self)@ == ({
                let found = matching(old(self)@.query, names(file_names@));
                SearchModel {
                    filename_matches: found,
                    current_match: if old(self)@.current_match >= found.len() {
                        0
                    } else {
                        old(self)@.current_match
                    },
                    ..old(self)@
                }
            }),
    {
        let found = find_names(self.query.as_str(), file_names);
        if self.current_match >= found.len() {
            self.current_match = 0;
        }
        self.filename_matches = found;
    }
}

/// The indices of the file names that hold the query, in order.
fn find_names(query: &str, file_names: &[&str]) -> (r: Vec<usize>)
    ensures
        r@ == matching(query@, names(file_names@)),
{
    let chars = chars_of(query);
    let lower_query = lowered(chars.as_slice());
    let mut r: Vec<usize> = Vec::new();
    let mut i: usize = 0;
    let ghost all = names(file_names@);
    assert(all.take(0) =~= Seq::empty());
    while i < file_names.len()
        invariant
            i <= file_names@.len(),
            all == names(file_names@),
            chars@ == query@,
            lower_query@ == lowercase(query@),
            r@ == matching(query@, all.take(i as int)),
        decreases file_names@.len() - i,
    {
        proof {
            assert(all.take(i + 1).drop_last() =~= all.take(i as int));
            assert(all.take(i + 1).last() == file_names@[i as int]@);
        }
        let name = chars_of(file_names[i]);
        if chars.len() == 0 || contains(lowered(name.as_slice()).as_slice(), lower_query.as_slice()) {
            r.push(i);
        }
        i += 1;
    }
    assert(all.take(i as int) =~= all);
    r
}

// ---- What searching promises -------------------------------------------------

/// The matches are the indices of the names that hold the query, in increasing
/// order; the empty query matches every name.
pub proof fn matches_are_exact(query: Seq<char>, names: Seq<Seq<char>>)
    requires
        names.len() <= usize::MAX,
    ensures
        forall|i: usize|
            #![trigger matching(query, names).contains(i)]
            matching(query, names).contains(i) <==> i < names.len() && is_match(query, names[i as int]),
        forall|a: int, b: int|
            0 <= a < b < matching(query, names).len() ==> (#[trigger] matching(query, names)[a]) < (
            #[trigger] matching(query, names)[b]),
    decreases names.len(),
{
    if names.len() > 0 {
        let init = names.drop_last();
        matches_are_exact(query, init);
        let (before, now) = (matching(query, init), matching(query, names));
        let last = (names.len() - 1) as usize;
        assert forall|i: usize|
            #![trigger now.contains(i)]
            now.contains(i) <==> i < names.len() && is_match(query, names[i as int]) by {
            if before.contains(i) {
                let k = choose|k: int| 0 <= k < before.len() && before[k] == i;
                assert(now[k] == i);
                assert(init[i as int] == names[i as int]);
            }
            if now.contains(i) && !before.contains(i) {
                let k = choose|k: int| 0 <= k < now.len() && now[k] == i;
                if k < before.len() {
                    assert(before[k] == i);
                }
            }
            if i < init.len() {
                assert(init[i as int] == names[i as int]);
            }
            if is_match(query, names.last()) {
                assert(now[now.len() - 1] == last);
            }
        }
        assert forall|a: int, b: int| 0 <= a < b < now.len() implies (#[trigger] now[a]) < (
        #[trigger] now[b]) by {
            if b < before.len() {
                assert(before[a] < before[b]);
            } else {
                assert(before.contains(before[a]));
            }
        }
    }
}

/// The matches are the names in which the query stands somewhere, when both are made
/// lowercase; the empty query stands in every name.
pub proof fn names_match_by_their_text(query: Seq<char>, names: Seq<Seq<char>>, i: usize)
    requires
        names.len() <= usize::MAX,
    ensures
        matching(query, names).contains(i) <==> i < names.len() && (query.len() == 0 || exists|k: int|
            0 <= k && k + lowercase(query).len() <= lowercase(names[i as int]).len() && #[trigger] lowercase(
                names[i as int],
            ).subrange(k, k + lowercase(query).len()) == lowercase(query)),
{
    matches_are_exact(query, names);
    if i < names.len() {
        let (hay, needle) = (lowercase(names[i as int]), lowercase(query));
        if occurs(hay, needle) {
            let k = choose|k: int| occurs_at(hay, needle, k);
            assert(hay.subrange(k, k + needle.len()) == needle);
        }
        if exists|k: int|
            0 <= k && k + needle.len() <= hay.len() && #[trigger] hay.subrange(k, k + needle.len()) == needle {
            let k = choose|k: int|
                0 <= k && k + needle.len() <= hay.len() && #[trigger] hay.subrange(k, k + needle.len()) == needle;
            assert(occurs_at(hay, needle, k));
        }
    }
}

}
