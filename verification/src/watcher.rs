//! Output watcher: counts case-insensitive occurrences of error keywords in
//! the bytes that the shell writes.

use vstd::prelude::*;
use vstd::string::StringExecFns;
use vstd::utf8::*;

verus! {

/// A character that has a meaning in regex syntax.
pub open spec fn is_regex_meta(c: char) -> bool {
    c == '\\' || c == '.' || c == '+' || c == '*' || c == '?' || c == '(' || c == ')' || c
        == '|' || c == '[' || c == ']' || c == '{' || c == '}' || c == '^' || c == '$' || c
        == '#' || c == '&' || c == '-' || c == '~'
}

/// `text` with a backslash before every regex meta character, so that it
/// matches itself literally.
pub open spec fn regex_escaped(text: Seq<char>) -> Seq<char>
    decreases text.len(),
{
    if text.len() == 0 {
        seq![]
    } else {
        regex_escaped(text.drop_last()) + if is_regex_meta(text.last()) {
            seq!['\\', text.last()]
        } else {
            seq![text.last()]
        }
    }
}

/// The regex flag group that makes a pattern case-insensitive: `(?i)`.
pub open spec fn case_insensitive_flag() -> Seq<char> {
    seq!['(', '?', 'i', ')']
}

/// The pattern that finds `keyword` literally, ignoring case.
pub open spec fn keyword_pattern(keyword: Seq<char>) -> Seq<char> {
    case_insensitive_flag() + regex_escaped(keyword)
}

/// Escaping works character by character: the escape of `a + b` is the
/// escape of `a` followed by that of `b`.
pub proof fn law_escape_concat(a: Seq<char>, b: Seq<char>)
    ensures
        regex_escaped(a + b) == regex_escaped(a) + regex_escaped(b),
    decreases b.len(),
{
    if b.len() == 0 {
        assert(a + b =~= a);
        assert(regex_escaped(a) + seq![] =~= regex_escaped(a));
    } else {
        assert((a + b).drop_last() =~= a + b.drop_last());
        assert((a + b).last() == b.last());
        law_escape_concat(a, b.drop_last());
    }
}

/// A single character escapes to a backslash and itself when it is a regex
/// meta character, and to itself otherwise.
pub proof fn law_escape_char(c: char)
    ensures
        regex_escaped(seq![c]) == if is_regex_meta(c) { seq!['\\', c] } else { seq![c] },
{
    assert(seq![c].drop_last() =~= Seq::<char>::empty());
    assert(regex_escaped(Seq::<char>::empty()) == Seq::<char>::empty());
    assert(Seq::<char>::empty() + seq!['\\', c] =~= seq!['\\', c]);
    assert(Seq::<char>::empty() + seq![c] =~= seq![c]);
}

/// A keyword without regex meta characters, such as the default ones,
/// is its own escape: its pattern finds exactly that text.
pub proof fn law_escape_plain(k: Seq<char>)
    requires
        forall|i: int| 0 <= i < k.len() ==> !is_regex_meta(#[trigger] k[i]),
    ensures
        regex_escaped(k) == k,
    decreases k.len(),
{
    if k.len() > 0 {
        law_escape_plain(k.drop_last());
        assert(k.drop_last() + seq![k.last()] =~= k);
    }
}

/// The pattern for a keyword is the case-insensitive flag `(?i)` followed
/// by the escaped keyword and nothing else; for a keyword without meta
/// characters it is `(?i)` and the keyword itself.
pub proof fn law_keyword_pattern(k: Seq<char>)
    ensures
        keyword_pattern(k) == seq!['(', '?', 'i', ')'] + regex_escaped(k),
        (forall|i: int| 0 <= i < k.len() ==> !is_regex_meta(#[trigger] k[i])) ==> keyword_pattern(k) == seq![
            '(',
            '?',
            'i',
            ')',
        ] + k,
{
    if forall|i: int| 0 <= i < k.len() ==> !is_regex_meta(#[trigger] k[i]) {
        law_escape_plain(k);
    }
}

/// Whether `regex::Regex::new` accepts `pattern`.
pub uninterp spec fn pattern_compiles(pattern: Seq<char>) -> bool;

/// The number of non-overlapping matches that the regex compiled from
/// `pattern` finds in `text` (`regex::Regex::find_iter`).
pub uninterp spec fn pattern_match_count(pattern: Seq<char>, text: Seq<char>) -> nat;

/// `String::from_utf8_lossy`: `bytes` read as UTF-8, with every invalid
/// sequence replaced by U+FFFD.
pub uninterp spec fn utf8_lossy(bytes: Seq<u8>) -> Seq<char>;

/// `regex::escape`: puts a backslash before each regex meta character.
#[verifier::external_body]
fn escape_keyword(keyword: &str) -> (escaped: String)
    ensures
        escaped@ == regex_escaped(keyword@),
{
    regex::escape(keyword)
}

/// `regex::Regex::new(pattern).is_ok()`: whether the pattern compiles.
#[verifier::external_body]
fn check_pattern(pattern: &str) -> (ok: bool)
    ensures
        ok == pattern_compiles(pattern@),
{
    regex::Regex::new(pattern).is_ok()
}

/// `regex::Regex::find_iter(..).count()` for the regex compiled from
/// `pattern`: the number of non-overlapping matches in `text`.
#[verifier::external_body]
fn count_matches(pattern: &str, text: &str) -> (n: usize)
    requires
        pattern_compiles(pattern@),
    ensures
        n == pattern_match_count(pattern@, text@),
{
    regex::Regex::new(pattern).unwrap().find_iter(text).count()
}

/// `String::from_utf8_lossy`: the bytes as text, invalid sequences replaced
/// by U+FFFD; valid UTF-8 is decoded as it stands.
#[verifier::external_body]
fn lossy_text(bytes: &[u8]) -> (text: String)
    ensures
        text@ == utf8_lossy(bytes@),
        valid_utf8(bytes@) ==> text@ == decode_utf8(bytes@),
{
    String::from_utf8_lossy(bytes).into_owned()
}

/// The total number of matches of all `patterns` in `text`.
pub open spec fn total_matches(patterns: Seq<Seq<char>>, text: Seq<char>) -> nat
    decreases patterns.len(),
{
    if patterns.len() == 0 {
        0
    } else {
        total_matches(patterns.drop_last(), text) + pattern_match_count(patterns.last(), text)
    }
}

/// The matches of a list of patterns add up over the list: those of
/// `p + q` are those of `p` and those of `q`, and a single pattern counts
/// its own matches.
pub proof fn law_total_matches(p: Seq<Seq<char>>, q: Seq<Seq<char>>, x: Seq<char>, text: Seq<char>)
    ensures
        total_matches(p + q, text) == total_matches(p, text) + total_matches(q, text),
        total_matches(seq![x], text) == pattern_match_count(x, text),
    decreases q.len(),
{
    assert(seq![x].drop_last() =~= Seq::<Seq<char>>::empty());
    assert(total_matches(Seq::<Seq<char>>::empty(), text) == 0);
    if q.len() == 0 {
        assert(p + q =~= p);
    } else {
        assert((p + q).drop_last() =~= p + q.drop_last());
        assert((p + q).last() == q.last());
        law_total_matches(p, q.drop_last(), x, text);
    }
}

/// Why a watcher could not be built.
#[derive(Debug, Clone, Copy, PartialEq, Eq)]
pub enum WatcherError {
    /// The keyword at this index gives a pattern that the regex engine refuses.
    InvalidKeyword { index: usize },
}

/// Output watcher: one case-insensitive literal pattern per keyword.
pub struct Watcher {
    patterns: Vec<String>,
}

impl View for Watcher {
    type V = Seq<Seq<char>>;

    closed spec fn view(&self) -> Seq<Seq<char>> {
        self.patterns@.map_values(|p: String| p@)
    }
}

impl Watcher {
    #[verifier::type_invariant]
    spec fn inv(self) -> bool {
        forall|i: int| 0 <= i < self.patterns@.len() ==> pattern_compiles(#[trigger] self.patterns@[i]@)
    }

    /// Builds a watcher for `keywords` (case-insensitive, taken literally).
    /// Fails with the index of the first keyword whose pattern does not
    /// compile.
    pub fn new(keywords: &[String]) -> (r: Result<Watcher, WatcherError>)
        ensures
            match r {
                Ok(w) => {
                    &&& w@.len() == keywords@.len()
                    &&& forall|i: int|
                        0 <= i < keywords@.len() ==> #[trigger] w@[i] == keyword_pattern(keywords@[i]@)
                    &&& forall|i: int|
                        0 <= i < keywords@.len() ==> #[trigger] w@[i] == seq!['(', '?', 'i', ')'] + regex_escaped(
                            keywords@[i]@,
                        )
                    &&& forall|i: int| 0 <= i < keywords@.len() ==> pattern_compiles(#[trigger] keyword_pattern(keywords@[i]@))
                },
                Err(WatcherError::InvalidKeyword { index }) => {
                    &&& index < keywords@.len()
                    &&& !pattern_compiles(keyword_pattern(keywords@[index as int]@))
                    &&& forall|i: int| 0 <= i < index ==> pattern_compiles(#[trigger] keyword_pattern(keywords@[i]@))
                },
            },
    {
        let mut patterns: Vec<String> = Vec::new();
        let mut i: usize = 0;
        while i < keywords.len()
            invariant
                i <= keywords@.len(),
                patterns@.len() == i,
                forall|k: int| 0 <= k < i ==> #[trigger] patterns@[k]@ == keyword_pattern(keywords@[k]@),
                forall|k: int| 0 <= k < i ==> pattern_compiles(#[trigger] keyword_pattern(keywords@[k]@)),
            decreases keywords@.len() - i,
        {
            let escaped = escape_keyword(keywords[i].as_str());
            let mut pattern = String::from_str("(?i)");
            proof {
                reveal_strlit("(?i)");
            }
            pattern.append(escaped.as_str());
            assert(pattern@ =~= keyword_pattern(keywords@[i as int]@));
            if !check_pattern(pattern.as_str()) {
                return Err(WatcherError::InvalidKeyword { index: i });
            }
            patterns.push(pattern);
            i = i + 1;
        }
        let w = Watcher { patterns };
        assert(w@ =~= Seq::new(keywords@.len(), |k: int| keyword_pattern(keywords@[k]@)));
        assert forall|k: int| 0 <= k < keywords@.len() implies #[trigger] w@[k] == seq!['(', '?', 'i', ')']
            + regex_escaped(keywords@[k]@) by {
            law_keyword_pattern(keywords@[k]@);
        }
        Ok(w)
    }

    /// The number of keyword matches in `data` read as text (invalid UTF-8
    /// replaced), summed over the keywords; at most `usize::MAX`.
    pub fn scan(&self, data: &[u8]) -> (count: usize)
        ensures
            count == if total_matches(self@, utf8_lossy(data@)) > usize::MAX {
                usize::MAX as nat
            } else {
                total_matches(self@, utf8_lossy(data@))
            },
    {
        proof {
            use_type_invariant(self);
        }
        let text = lossy_text(data);
        let ghost t = utf8_lossy(data@);
        let mut count: usize = 0;
        let mut i: usize = 0;
        while i < self.patterns.len()
            invariant
                i <= self.patterns@.len(),
                text@ == t,
                forall|k: int| 0 <= k < self.patterns@.len() ==> pattern_compiles(#[trigger] self.patterns@[k]@),
                count == if total_matches(self@.take(i as int), t) > usize::MAX {
                    usize::MAX as nat
                } else {
                    total_matches(self@.take(i as int), t)
                },
            decreases self.patterns@.len() - i,
        {
            let n = count_matches(self.patterns[i].as_str(), text.as_str());
            assert(self@.take(i + 1).drop_last() =~= self@.take(i as int));
            count = count.saturating_add(n);
            i = i + 1;
        }
        assert(self@.take(i as int) =~= self@);
        count
    }
}

} // verus!
