//! Settings and their defaults.

use vstd::prelude::*;
use vstd::string::StringExecFns;

verus! {

/// The keywords watched for by default: `error`, `fail`, `exception`, `fatal`.
pub open spec fn default_keywords() -> Seq<Seq<char>> {
    seq![
        seq!['e', 'r', 'r', 'o', 'r'],
        seq!['f', 'a', 'i', 'l'],
        seq!['e', 'x', 'c', 'e', 'p', 't', 'i', 'o', 'n'],
        seq!['f', 'a', 't', 'a', 'l'],
    ]
}

/// Settings of the sniffer.
#[derive(Debug, Clone)]
pub struct Config {
    pub error_keywords: Vec<String>,
    pub min_bugs: usize,
    pub max_bugs: usize,
    pub bug_lifetime_ms: u64,
    pub refresh_rate_ms: u64,
    pub max_concurrent_bugs: usize,
}

/// The keywords watched for by default.
pub fn default_error_keywords() -> (keywords: Vec<String>)
    ensures
        keywords@.map_values(|k: String| k@) == default_keywords(),
{
    let error = String::from_str("error");
    let fail = String::from_str("fail");
    let exception = String::from_str("exception");
    let fatal = String::from_str("fatal");
    proof {
        reveal_strlit("error");
        reveal_strlit("fail");
        reveal_strlit("exception");
        reveal_strlit("fatal");
        assert(error@ =~= default_keywords()[0]);
        assert(fail@ =~= default_keywords()[1]);
        assert(exception@ =~= default_keywords()[2]);
        assert(fatal@ =~= default_keywords()[3]);
    }
    let mut keywords: Vec<String> = Vec::new();
    keywords.push(error);
    keywords.push(fail);
    keywords.push(exception);
    keywords.push(fatal);
    assert(keywords@.map_values(|k: String| k@) =~= default_keywords());
    keywords
}

pub fn default_min_bugs() -> (n: usize)
    ensures
        n == 2,
{
    2
}

pub fn default_max_bugs() -> (n: usize)
    ensures
        n == 5,
{
    5
}

pub fn default_bug_lifetime_ms() -> (ms: u64)
    ensures
        ms == 2500,
{
    2500
}

pub fn default_refresh_rate_ms() -> (ms: u64)
    ensures
        ms == 100,
{
    100
}

pub fn default_max_concurrent_bugs() -> (n: usize)
    ensures
        n == 30,
{
    30
}

impl Config {
    /// Whether every setting has its default value.
    pub open spec fn is_default(&self) -> bool {
        &&& self.error_keywords@.map_values(|k: String| k@) == default_keywords()
        &&& self.min_bugs == 2
        &&& self.max_bugs == 5
        &&& self.bug_lifetime_ms == 2500
        &&& self.refresh_rate_ms == 100
        &&& self.max_concurrent_bugs == 30
    }
}

impl Default for Config {
    fn default() -> (c: Self)
        ensures
            c.is_default(),
    {
        Config {
            error_keywords: default_error_keywords(),
            min_bugs: default_min_bugs(),
            max_bugs: default_max_bugs(),
            bug_lifetime_ms: default_bug_lifetime_ms(),
            refresh_rate_ms: default_refresh_rate_ms(),
            max_concurrent_bugs: default_max_concurrent_bugs(),
        }
    }
}

} // verus!
