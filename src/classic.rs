//! Flat fuzzing: every word (or every ordered choice of words) put into the
//! placeholders of one URL template, and each discovery recorded under the
//! root.
use vstd::prelude::*;
use itertools::Itertools;
use crate::text::{chars_of, interleave, interleave_exec, segments, split_on, string_of, views};
use crate::tree::{Addition, Tree, TreeData};
use crate::wordlist::{replace_all, replace_all_exec, word_views};

verus! {

/// Settings that the runners read.
pub struct RunOptions {
    /// The placeholder that words replace in the URL template.
    pub fuzz_key: String,
    /// Fill the placeholders with every ordered choice of distinct words.
    pub permutations: bool,
    /// Record a failure to connect as a discovery with status 0.
    pub hit_connection_errors: bool,
    /// Requests per second for each worker; 0 means no limit.
    pub throttle: u64,
    /// How many levels a recursive crawl descends.
    pub depth: usize,
}

/// What came of one request.
pub enum Outcome {
    /// A response, with whether it passed the filters and what the display
    /// rules extracted from it.
    Response { status_code: u16, passed: bool, additions: Vec<Addition> },
    /// The connection could not be made.
    ConnectError,
    /// Any other transport failure.
    OtherError,
}

/// The status and extras to record for an outcome, if it is a discovery.
pub open spec fn spec_discovery(o: Outcome, hit_connection_errors: bool) -> Option<(u16, Seq<Addition>)> {
    match o {
        Outcome::Response { status_code, passed, additions } => if passed {
            Some((status_code, additions@))
        } else {
            None
        },
        Outcome::ConnectError => if hit_connection_errors {
            Some((0u16, Seq::<Addition>::empty()))
        } else {
            None
        },
        Outcome::OtherError => None,
    }
}

/// Whether an outcome is recorded, and with which status and extras.
pub fn discovery(o: Outcome, hit_connection_errors: bool) -> (r: Option<(u16, Vec<Addition>)>)
    ensures
        match spec_discovery(o, hit_connection_errors) {
            None => r is None,
            Some((s, a)) => r matches Some((s2, a2)) && s2 == s && a2@ == a,
        },
{
    match o {
        Outcome::Response { status_code, passed, additions } => if passed {
            Some((status_code, additions))
        } else {
            None
        },
        Outcome::ConnectError => if hit_connection_errors {
            Some((0, Vec::new()))
        } else {
            None
        },
        Outcome::OtherError => None,
    }
}

/// The pause, in microseconds, that keeps a worker at `throttle` requests
/// per second after a request that took `elapsed_us`.
pub open spec fn spec_pause_us(throttle: u64, elapsed_us: u64) -> int {
    if throttle == 0 || elapsed_us >= 1_000_000u64 / throttle {
        0
    } else {
        1_000_000u64 / throttle - elapsed_us
    }
}

/// How long to sleep after a request so that a worker sends at most
/// `throttle` requests per second; 0 when there is no limit.
pub fn throttle_pause_us(throttle: u64, elapsed_us: u64) -> (r: u64)
    ensures
        r == spec_pause_us(throttle, elapsed_us),
{
    if throttle == 0 {
        return 0;
    }
    let target = 1_000_000 / throttle;
    if elapsed_us >= target {
        0
    } else {
        target - elapsed_us
    }
}

/// `n * (n - 1) * ... * (n - k + 1)`: the number of ordered choices of `k`
/// distinct items out of `n`.
pub open spec fn falling(n: nat, k: nat) -> nat
    decreases k,
{
    if k == 0 {
        1
    } else if n == 0 {
        0
    } else {
        n * falling((n - 1) as nat, (k - 1) as nat)
    }
}

/// `n!`.
pub open spec fn factorial(n: nat) -> nat
    decreases n,
{
    if n == 0 {
        1
    } else {
        n * factorial((n - 1) as nat)
    }
}

/// The number of ordered choices is `n! / (n - k)!`.
pub proof fn lemma_falling_factorial(n: nat, k: nat)
    requires
        k <= n,
    ensures
        falling(n, k) * factorial((n - k) as nat) == factorial(n),
    decreases k,
{
    if k > 0 {
        lemma_falling_factorial((n - 1) as nat, (k - 1) as nat);
        let a = falling((n - 1) as nat, (k - 1) as nat);
        let b = factorial((n - k) as nat);
        assert((((n - 1) as nat) - ((k - 1) as nat)) as nat == (n - k) as nat);
        assert(falling(n, k) == n * a);
        assert(factorial(n) == n * factorial((n - 1) as nat));
        assert(a * b == factorial((n - 1) as nat));
        assert(n * a * b == n * (a * b)) by (nonlinear_arith);
        assert(falling(n, k) * b == n * a * b);
    } else {
        assert(falling(n, k) == 1);
        assert((n - k) as nat == n);
        assert(1 * factorial(n) == factorial(n));
    }
}

/// `p` is an ordered choice of `k` distinct indexes below `n`.
pub open spec fn is_k_perm(p: Seq<usize>, n: nat, k: nat) -> bool {
    &&& p.len() == k
    &&& forall|i: int| 0 <= i < p.len() ==> (#[trigger] p[i]) < n
    &&& forall|i: int, j: int| 0 <= i < j < p.len() ==> #[trigger] p[i] != #[trigger] p[j]
}

/// The template's pieces around the placeholders, filled with the words
/// that `p` picks, in order.
pub open spec fn fill_choice(segs: Seq<Seq<char>>, words: Seq<Seq<char>>, p: Seq<usize>) -> Seq<char> {
    interleave(segs, p.map_values(|j: usize| words[j as int]))
}

/// The URLs of a flat run over `words`: with `permutations`, one for each
/// ordered choice of distinct words, one word per placeholder, each choice
/// once; otherwise one per word, the word in every placeholder. A template
/// without a placeholder gives itself alone.
pub open spec fn is_url_set(
    r: Seq<Seq<char>>,
    template: Seq<char>,
    key: Seq<char>,
    words: Seq<Seq<char>>,
    permutations: bool,
) -> bool {
    let segs = segments(template, key);
    let k = (segs.len() - 1) as nat;
    if k == 0 {
        r == seq![template]
    } else if !permutations {
        &&& r.len() == words.len()
        &&& forall|i: int| 0 <= i < r.len() ==> #[trigger] r[i] == replace_all(template, key, words[i])
    } else {
        &&& r.len() == falling(words.len(), k)
        &&& exists|ps: Seq<Seq<usize>>|
            #![trigger ps.len()]
            {
                &&& ps.len() == r.len()
                &&& forall|i: int|
                    0 <= i < ps.len() ==> is_k_perm(#[trigger] ps[i], words.len(), k) && r[i]
                        == fill_choice(segs, words, ps[i])
                &&& forall|i: int, j: int| 0 <= i < j < ps.len() ==> #[trigger] ps[i] != #[trigger] ps[j]
                &&& forall|p: Seq<usize>|
                    is_k_perm(p, words.len(), k) ==> exists|i: int| 0 <= i < ps.len() && #[trigger] ps[i] == p
            }
    }
}

/// Relies on itertools::Itertools::permutations over `0..n`: every ordered
/// choice of `k` distinct indexes below `n`, each exactly once.
#[verifier::external_body]
fn index_permutations(n: usize, k: usize) -> (r: Vec<Vec<usize>>)
    requires
        falling(n as nat, k as nat) <= usize::MAX,
    ensures
        r@.len() == falling(n as nat, k as nat),
        forall|i: int| 0 <= i < r@.len() ==> is_k_perm((#[trigger] r@[i])@, n as nat, k as nat),
        forall|i: int, j: int| 0 <= i < j < r@.len() ==> (#[trigger] r@[i])@ != (#[trigger] r@[j])@,
        forall|p: Seq<usize>|
            is_k_perm(p, n as nat, k as nat) ==> exists|i: int| 0 <= i < r@.len() && (#[trigger] r@[i])@ == p,
{
    (0..n).permutations(k).collect()
}

/// The number of ordered choices of `k` out of `n`, if it fits in a `usize`.
pub fn permutation_count(n: usize, k: usize) -> (r: Option<usize>)
    ensures
        r matches Some(c) ==> c == falling(n as nat, k as nat),
        r is None <==> falling(n as nat, k as nat) > usize::MAX,
    decreases k,
{
    if k == 0 {
        return Some(1);
    }
    if n == 0 {
        return Some(0);
    }
    match permutation_count(n - 1, k - 1) {
        None => {
            assert(falling(n as nat, k as nat) >= falling((n - 1) as nat, (k - 1) as nat)) by (
            nonlinear_arith)
                requires
                    n >= 1,
                    falling(n as nat, k as nat) == n * falling((n - 1) as nat, (k - 1) as nat),
            ;
            None
        },
        Some(c) => {
            let r = n.checked_mul(c);
            r
        },
    }
}

/// The URLs of a flat run (see `is_url_set`).
pub fn generate_urls(template: &String, fuzz_key: &String, words: &Vec<String>, permutations: bool) -> (r: Vec<String>)
    requires
        permutations ==> falling(
            words.len() as nat,
            (segments(template@, fuzz_key@).len() - 1) as nat,
        ) <= usize::MAX,
    ensures
        is_url_set(word_views(r@), template@, fuzz_key@, word_views(words@), permutations),
{
    let t = chars_of(template.as_str());
    let key = chars_of(fuzz_key.as_str());
    let segs = split_on(&t, &key);
    proof {
        crate::text::lemma_segments_nonempty(t@, key@);
    }
    let k = segs.len() - 1;
    let mut out: Vec<String> = Vec::new();
    if k == 0 {
        out.push(template.clone());
        assert(word_views(out@) =~= seq![template@]);
        return out;
    }
    let ghost wv = word_views(words@);
    if !permutations {
        let mut i: usize = 0;
        while i < words.len()
            invariant
                i <= words.len(),
                wv == word_views(words@),
                out.len() == i,
                forall|m: int| 0 <= m < i ==> (#[trigger] out@[m])@ == replace_all(t@, key@, wv[m]),
            decreases words.len() - i,
        {
            let w = chars_of(words[i].as_str());
            let u = replace_all_exec(&t, &key, &w);
            out.push(string_of(&u));
            i += 1;
        }
        assert(forall|m: int| 0 <= m < out.len() ==> #[trigger] word_views(out@)[m] == out@[m]@);
        return out;
    }
    let mut chars: Vec<Vec<char>> = Vec::new();
    let mut i: usize = 0;
    while i < words.len()
        invariant
            i <= words.len(),
            wv == word_views(words@),
            views(chars@) == wv.take(i as int),
        decreases words.len() - i,
    {
        let ghost prev = chars@;
        let cv = chars_of(words[i].as_str());
        chars.push(cv);
        assert(views(chars@) =~= views(prev).push(wv[i as int]));
        assert(views(chars@) =~= wv.take(i + 1));
        i += 1;
    }
    assert(views(chars@) =~= wv);
    let perms = index_permutations(words.len(), k);
    let mut j: usize = 0;
    while j < perms.len()
        invariant
            j <= perms.len(),
            segs.len() == k + 1,
            views(chars@) == wv,
            wv.len() == words.len(),
            forall|i: int| 0 <= i < perms@.len() ==> is_k_perm((#[trigger] perms@[i])@, words.len() as nat, k as nat),
            out.len() == j,
            forall|m: int| 0 <= m < j ==> (#[trigger] out@[m])@ == fill_choice(views(segs@), wv, perms@[m]@),
        decreases perms.len() - j,
    {
        let p = &perms[j];
        assert(is_k_perm(perms@[j as int]@, words.len() as nat, k as nat));
        let mut fills: Vec<Vec<char>> = Vec::new();
        let mut m: usize = 0;
        while m < p.len()
            invariant
                m <= p.len(),
                p.len() == k,
                views(chars@) == wv,
                wv.len() == words.len(),
                is_k_perm(p@, words.len() as nat, k as nat),
                views(fills@) == p@.take(m as int).map_values(|x: usize| wv[x as int]),
            decreases p.len() - m,
        {
            let idx = p[m];
            assert(p@[m as int] < words.len());
            let c = chars[idx].clone();
            assert(c@ =~= chars@[idx as int]@);
            let ghost prev = fills@;
            fills.push(c);
            assert(views(fills@) =~= views(prev).push(wv[idx as int]));
            assert(p@.take(m + 1).map_values(|x: usize| wv[x as int]) =~= p@.take(
                m as int,
            ).map_values(|x: usize| wv[x as int]).push(wv[idx as int]));
            assert(views(fills@) =~= p@.take(m + 1).map_values(|x: usize| wv[x as int]));
            m += 1;
        }
        assert(p@.take(p.len() as int) =~= p@);
        let u = interleave_exec(&segs, &fills);
        out.push(string_of(&u));
        j += 1;
    }
    proof {
        let ps = perms@.map_values(|v: Vec<usize>| v@);
        assert(views(segs@) == segments(template@, fuzz_key@));
        assert(ps.len() == word_views(out@).len());
        assert forall|p: Seq<usize>| is_k_perm(p, wv.len(), k as nat) implies exists|i: int|
            0 <= i < ps.len() && #[trigger] ps[i] == p by {
            let i = choose|i: int| 0 <= i < perms@.len() && (#[trigger] perms@[i])@ == p;
            assert(ps[i] == p);
        }
        assert forall|i: int, j2: int| 0 <= i < j2 < ps.len() implies #[trigger] ps[i] != #[trigger] ps[j2] by {
            assert(perms@[i]@ != perms@[j2]@);
        }
        assert forall|i: int| 0 <= i < ps.len() implies is_k_perm(#[trigger] ps[i], wv.len(), k as nat)
            && word_views(out@)[i] == fill_choice(segments(template@, fuzz_key@), wv, ps[i]) by {
            assert(out@[i]@ == fill_choice(views(segs@), wv, perms@[i]@));
        }
    }
    out
}

/// The path of an absolute URL, or nothing when the text does not parse as one.
pub uninterp spec fn url_path_of(s: Seq<char>) -> Option<Seq<char>>;

/// Relies on url::Url::parse and url::Url::path: the path of the parsed URL,
/// or None when parsing fails.
#[verifier::external_body]
fn url_path(s: &str) -> (r: Option<String>)
    ensures
        match r {
            None => url_path_of(s@) is None,
            Some(p) => url_path_of(s@) == Some(p@),
        },
{
    url::Url::parse(s).ok().map(|u| u.path().to_string())
}

/// The path of `url` with every occurrence of the root's path taken out.
pub open spec fn spec_relative_path(url: Seq<char>, root_url: Seq<char>) -> Option<Seq<char>> {
    match (url_path_of(url), url_path_of(root_url)) {
        (Some(p), Some(q)) => Some(replace_all(p, q, Seq::<char>::empty())),
        _ => None,
    }
}

/// The path of `url` relative to the root: its URL path with the root's
/// path taken out. None when either does not parse.
pub fn relative_path(url: &String, root_url: &String) -> (r: Option<String>)
    ensures
        match spec_relative_path(url@, root_url@) {
            None => r is None,
            Some(p) => r matches Some(s) && s@ == p,
        },
{
    let p = match url_path(url.as_str()) {
        Some(p) => p,
        None => return None,
    };
    let q = match url_path(root_url.as_str()) {
        Some(q) => q,
        None => return None,
    };
    let empty: Vec<char> = Vec::new();
    let r = replace_all_exec(&chars_of(p.as_str()), &chars_of(q.as_str()), &empty);
    Some(string_of(&r))
}

/// Why a discovery could not be recorded.
#[derive(Debug, PartialEq, Eq, Structural)]
pub enum RecordError {
    /// The tree has no root to hang the discovery under.
    NoRoot,
    /// The URL or the root's URL does not parse.
    BadUrl,
}

/// A flat run over one URL template.
pub struct Classic {
    url: String,
    opts: RunOptions,
    tree: Tree,
    words: Vec<String>,
    threads: usize,
}

impl Classic {
    pub closed spec fn spec_url(&self) -> Seq<char> {
        self.url@
    }

    pub closed spec fn spec_opts(&self) -> RunOptions {
        self.opts
    }

    pub closed spec fn spec_tree(&self) -> Tree {
        self.tree
    }

    pub closed spec fn spec_words(&self) -> Seq<Seq<char>> {
        word_views(self.words@)
    }

    pub closed spec fn spec_threads(&self) -> usize {
        self.threads
    }

    pub fn new(url: String, opts: RunOptions, tree: Tree, words: Vec<String>, threads: usize) -> (r: Classic)
        ensures
            r.spec_url() == url@,
            r.spec_opts() == opts,
            r.spec_tree() == tree,
            r.spec_words() == word_views(words@),
            r.spec_threads() == threads,
    {
        Classic { url, opts, tree, words, threads }
    }

    /// The discovery tree.
    pub fn tree(&self) -> (r: &Tree)
        ensures
            *r == self.spec_tree(),
    {
        &self.tree
    }

    /// The URLs of this run (see `is_url_set`).
    pub fn generate_urls(&self) -> (r: Vec<String>)
        requires
            self.spec_opts().permutations ==> falling(
                self.spec_words().len(),
                (segments(self.spec_url(), self.spec_opts().fuzz_key@).len() - 1) as nat,
            ) <= usize::MAX,
        ensures
            is_url_set(
                word_views(r@),
                self.spec_url(),
                self.spec_opts().fuzz_key@,
                self.spec_words(),
                self.spec_opts().permutations,
            ),
    {
        generate_urls(&self.url, &self.opts.fuzz_key, &self.words, self.opts.permutations)
    }

    /// Records what came of requesting `url`. A discovery becomes a new last
    /// child of the root at depth 0, its path relative to the root's; other
    /// outcomes leave the tree as it is.
    pub fn record(&mut self, url: &String, outcome: Outcome) -> (r: Result<bool, RecordError>)
        requires
            old(self).spec_tree().wf(),
        ensures
            final(self).spec_tree().wf(),
            final(self).spec_url() == old(self).spec_url(),
            final(self).spec_opts() == old(self).spec_opts(),
            final(self).spec_words() == old(self).spec_words(),
            final(self).spec_threads() == old(self).spec_threads(),
            ({
                let t = old(self).spec_tree();
                match spec_discovery(outcome, old(self).spec_opts().hit_connection_errors) {
                    None => r == Ok::<bool, RecordError>(false),
                    Some((status, extra)) => if t.spec_len() == 0 {
                        r == Err::<bool, RecordError>(RecordError::NoRoot)
                    } else {
                        match spec_relative_path(url@, t.records()[0].url@) {
                            None => r == Err::<bool, RecordError>(RecordError::BadUrl),
                            Some(path) => {
                                &&& r == Ok::<bool, RecordError>(true)
                                &&& final(self).spec_tree().spec_len() == t.spec_len() + 1
                                &&& final(self).spec_tree().kids() == t.kids().update(
                                    0,
                                    t.kids()[0].push(t.spec_len() as usize),
                                ).push(Seq::<usize>::empty())
                                &&& final(self).spec_tree().records().drop_last() == t.records()
                                &&& final(self).spec_tree().records().last().url@ == url@
                                &&& final(self).spec_tree().records().last().depth == 0
                                &&& final(self).spec_tree().records().last().path@ == path
                                &&& final(self).spec_tree().records().last().status_code == status
                                &&& final(self).spec_tree().records().last().extra@ == extra
                            },
                        }
                    },
                }
            }),
            r != Ok::<bool, RecordError>(true) ==> final(self).spec_tree() == old(self).spec_tree(),
    {
        let found = discovery(outcome, self.opts.hit_connection_errors);
        let (status_code, extra) = match found {
            None => return Ok(false),
            Some(f) => f,
        };
        let root = match self.tree.root() {
            None => return Err(RecordError::NoRoot),
            Some(i) => i,
        };
        let path = match relative_path(url, &self.tree.data(root).url) {
            None => return Err(RecordError::BadUrl),
            Some(p) => p,
        };
        let data = TreeData { url: url.clone(), depth: 0, path, status_code, extra };
        let _ = self.tree.insert(data, Some(root));
        proof {
            assert(self.tree.records().drop_last() =~= old(self).tree.records());
        }
        Ok(true)
    }
}

} // verus!
