//! Benchmark targets.
use vstd::prelude::*;
use vstd::string::StrSliceExecFns;

use crate::bench::error::BenchError;

verus! {

/// A RESP-speaking server (Beyond KV, Redis, KeyDB, Dragonfly, …).
#[derive(Debug)]
pub struct Resp {
    name: String,
    url: String,
}

/// The text has an `=` at `at`, and none before.
pub open spec fn first_equals(s: Seq<char>, at: int) -> bool {
    0 <= at < s.len() && s[at] == '=' && forall|i: int| 0 <= i < at ==> s[i] != '='
}

impl Resp {
    pub closed spec fn name_view(&self) -> Seq<char> {
        self.name@
    }

    pub closed spec fn url_view(&self) -> Seq<char> {
        self.url@
    }

    pub fn new(name: String, url: String) -> (r: Resp)
        ensures
            r.name_view() == name@,
            r.url_view() == url@,
    {
        Resp { name, url }
    }

    /// Display name used in reports.
    pub fn name(&self) -> (r: &String)
        ensures
            r@ == self.name_view(),
    {
        &self.name
    }

    pub fn url(&self) -> (r: &String)
        ensures
            r@ == self.url_view(),
    {
        &self.url
    }

    /// Parse a `name=url` spec from the CLI, e.g. `beyond=redis://127.0.0.1:6379`: the name ends at
    /// the first `=`.
    pub fn parse_spec(spec: &str) -> (r: Result<Resp, BenchError>)
        ensures
            match r {
                Ok(t) => exists|at: int| #[trigger]
                    first_equals(spec@, at) && t.name_view() == spec@.take(at) && t.url_view()
                        == spec@.skip(at + 1),
                Err(e) => e == BenchError::BadTarget && forall|i: int|
                    0 <= i < spec@.len() ==> spec@[i] != '=',
            },
    {
        let n: usize = spec.unicode_len();
        let mut at: usize = 0;
        while at < n
            invariant
                n == spec@.len(),
                at <= n,
                forall|i: int| 0 <= i < at ==> spec@[i] != '=',
            decreases n - at,
        {
            if spec.get_char(at) == '=' {
                let name = spec.substring_char(0, at).to_owned();
                let url = spec.substring_char(at + 1, n).to_owned();
                proof {
                    assert(first_equals(spec@, at as int));
                    assert(name@ =~= spec@.take(at as int));
                    assert(url@ =~= spec@.skip(at + 1));
                }
                return Ok(Resp::new(name, url));
            }
            at = at + 1;
        }
        Err(BenchError::BadTarget)
    }
}

} // verus!
