//! The recursive crawl, as the state that its workers share: the tree, the
//! depth being explored, and for each explored node one cursor per chunk of
//! the wordlist. Whoever drives the crawl asks for the frontier of a depth,
//! asks each (node, chunk) pair for its next URL, reports what came of it,
//! and moves to the next depth once every pair is exhausted.
use vstd::prelude::*;
use crate::classic::{discovery, spec_discovery, Outcome, RunOptions};
use crate::text::{append_chars, chars_of, string_of};
use crate::tree::{Tree, TreeData};
use crate::wordlist::{chunk_count, chunk_end, chunk_start, lemma_chunk_bounds, split_chunks, word_views};

verus! {

/// The URL of `word` under `base`, with exactly one `/` between them.
pub open spec fn child_url(base: Seq<char>, word: Seq<char>) -> Seq<char> {
    if base.len() > 0 && base.last() == '/' {
        base + word
    } else {
        base + seq!['/'] + word
    }
}

/// The URL of `word` under `base`, with exactly one `/` between them.
pub fn join_url(base: &String, word: &String) -> (r: String)
    ensures
        r@ == child_url(base@, word@),
{
    let mut out = chars_of(base.as_str());
    let n = out.len();
    if n == 0 || out[n - 1] != '/' {
        out.push('/');
    }
    append_chars(&mut out, &chars_of(word.as_str()));
    string_of(&out)
}

/// The sum of the numbers.
pub open spec fn total(s: Seq<usize>) -> int
    decreases s.len(),
{
    if s.len() == 0 {
        0
    } else {
        total(s.drop_last()) + s.last()
    }
}

/// A saved cursor: the URL of an explored node and its position in each
/// chunk.
pub struct CursorEntry {
    pub url: String,
    pub cursor: Vec<usize>,
}

/// What a checkpoint holds.
pub struct SaveRecord {
    pub tree: Tree,
    pub depth: usize,
    pub wordlist_checksum: String,
    pub indexes: Vec<CursorEntry>,
}

/// Why a checkpoint was not taken up.
#[derive(Debug, PartialEq, Eq, Structural)]
pub enum ResumeError {
    /// The saved tree is malformed or has no root.
    BadTree,
    /// The saved tree's root is another URL than the one configured.
    UrlMismatch,
}

/// The shared state of a recursive crawl.
pub struct Recursive {
    opts: RunOptions,
    depth: usize,
    tree: Tree,
    keys: Vec<String>,
    cursors: Vec<Vec<usize>>,
    chunks: Vec<Vec<String>>,
    words: Vec<String>,
}

impl Recursive {
    pub closed spec fn spec_opts(&self) -> RunOptions {
        self.opts
    }

    pub closed spec fn spec_depth(&self) -> usize {
        self.depth
    }

    pub closed spec fn spec_tree(&self) -> Tree {
        self.tree
    }

    pub closed spec fn spec_words(&self) -> Seq<Seq<char>> {
        word_views(self.words@)
    }

    /// The words of each chunk.
    pub closed spec fn spec_chunks(&self) -> Seq<Seq<Seq<char>>> {
        self.chunks@.map_values(|c: Vec<String>| word_views(c@))
    }

    /// The URLs that have cursors, in the order they got them.
    pub closed spec fn spec_keys(&self) -> Seq<Seq<char>> {
        word_views(self.keys@)
    }

    /// The cursors, in the order of `spec_keys`.
    pub closed spec fn spec_cursors(&self) -> Seq<Seq<usize>> {
        self.cursors@.map_values(|c: Vec<usize>| c@)
    }

    /// The cursor of `u`, if it has one.
    pub open spec fn cursor_for(&self, u: Seq<char>) -> Option<Seq<usize>> {
        if exists|e: int| 0 <= e < self.spec_keys().len() && self.spec_keys()[e] == u {
            Some(
                self.spec_cursors()[choose|e: int|
                    0 <= e < self.spec_keys().len() && self.spec_keys()[e] == u],
            )
        } else {
            None
        }
    }

    /// The number of chunks.
    pub open spec fn spec_t(&self) -> int {
        self.spec_chunks().len() as int
    }

    /// The URL of node `k`.
    pub open spec fn node_url(&self, k: int) -> Seq<char> {
        self.spec_tree().records()[k].url@
    }

    /// The chunks split the words evenly in order, each URL has one cursor,
    /// and each cursor has one position per chunk, within that chunk.
    pub open spec fn wf(&self) -> bool {
        let n = self.spec_words().len() as int;
        let t = self.spec_t();
        &&& self.spec_tree().wf()
        &&& 0 < t <= n
        &&& forall|i: int|
            0 <= i < t ==> #[trigger] self.spec_chunks()[i] == self.spec_words().subrange(
                chunk_start(n, t, i),
                chunk_end(n, t, i),
            )
        &&& self.spec_keys().len() == self.spec_cursors().len()
        &&& forall|a: int, b: int|
            0 <= a < b < self.spec_keys().len() ==> #[trigger] self.spec_keys()[a]
                != #[trigger] self.spec_keys()[b]
        &&& forall|e: int|
            0 <= e < self.spec_cursors().len() ==> (#[trigger] self.spec_cursors()[e]).len() == t
        &&& forall|e: int, i: int|
            0 <= e < self.spec_cursors().len() && 0 <= i < t ==> #[trigger] self.spec_cursors()[e][i]
                <= self.spec_chunks()[i].len()
    }

    /// The cursor of key `e` is the cursor of its URL.
    pub proof fn lemma_cursor_for_key(&self, e: int)
        requires
            self.wf(),
            0 <= e < self.spec_keys().len(),
        ensures
            self.cursor_for(self.spec_keys()[e]) == Some(self.spec_cursors()[e]),
    {
        let u = self.spec_keys()[e];
        let c = choose|c: int| 0 <= c < self.spec_keys().len() && self.spec_keys()[c] == u;
        if c != e {
            if c < e {
                assert(self.spec_keys()[c] != self.spec_keys()[e]);
            } else {
                assert(self.spec_keys()[e] != self.spec_keys()[c]);
            }
        }
    }

    /// A fresh crawl over `words` from the tree's root, at depth 0, with
    /// `chunk_count(threads, |words|)` chunks and no cursors yet.
    pub fn new(opts: RunOptions, tree: Tree, words: Vec<String>, threads: usize) -> (r: Recursive)
        requires
            tree.wf(),
            words.len() > 0,
        ensures
            r.wf(),
            r.spec_opts() == opts,
            r.spec_tree() == tree,
            r.spec_depth() == 0,
            r.spec_words() == word_views(words@),
            r.spec_t() == chunk_count(threads as int, words.len() as int),
            r.spec_keys().len() == 0,
    {
        let chunks = split_chunks(&words, threads);
        let r = Recursive { opts, depth: 0, tree, keys: Vec::new(), cursors: Vec::new(), chunks, words };
        proof {
            assert(r.spec_keys() =~= Seq::<Seq<char>>::empty());
            assert(r.spec_cursors() =~= Seq::<Seq<usize>>::empty());
            assert forall|i: int| 0 <= i < r.spec_t() implies #[trigger] r.spec_chunks()[i]
                == r.spec_words().subrange(
                chunk_start(r.spec_words().len() as int, r.spec_t(), i),
                chunk_end(r.spec_words().len() as int, r.spec_t(), i),
            ) by {
                assert(r.spec_chunks()[i] == word_views(r.chunks@[i]@));
            }
        }
        r
    }

    /// The discovery tree.
    pub fn tree(&self) -> (r: &Tree)
        ensures
            *r == self.spec_tree(),
    {
        &self.tree
    }

    /// The depth being explored.
    pub fn depth(&self) -> (r: usize)
        ensures
            r == self.spec_depth(),
    {
        self.depth
    }

    /// The number of chunks.
    pub fn chunk_total(&self) -> (r: usize)
        ensures
            r == self.spec_t(),
    {
        self.chunks.len()
    }

    /// Whether the crawl has reached its configured depth.
    pub fn is_done(&self) -> (r: bool)
        ensures
            r == (self.spec_depth() >= self.spec_opts().depth),
    {
        self.depth >= self.opts.depth
    }

    /// The key index of `u`, if it has a cursor.
    fn find_key(&self, u: &String) -> (r: Option<usize>)
        requires
            self.wf(),
        ensures
            match r {
                Some(e) => e < self.spec_keys().len() && self.spec_keys()[e as int] == u@,
                None => forall|e: int| 0 <= e < self.spec_keys().len() ==> self.spec_keys()[e] != u@,
            },
    {
        let mut e: usize = 0;
        while e < self.keys.len()
            invariant
                e <= self.keys.len(),
                forall|m: int| 0 <= m < e ==> self.spec_keys()[m] != u@,
            decreases self.keys.len() - e,
        {
            if self.keys[e] == *u {
                return Some(e);
            }
            e += 1;
        }
        None
    }

    /// The position of node `k` in chunk `i`.
    pub fn cursor_at(&self, k: usize, i: usize) -> (r: usize)
        requires
            self.wf(),
            k < self.spec_tree().spec_len(),
            i < self.spec_t(),
            self.cursor_for(self.node_url(k as int)) is Some,
        ensures
            r == self.cursor_for(self.node_url(k as int))->0[i as int],
    {
        let u = &self.tree.data(k).url;
        match self.find_key(u) {
            Some(e) => {
                proof {
                    self.lemma_cursor_for_key(e as int);
                }
                self.cursors[e][i]
            },
            None => {
                assert(false);
                0
            },
        }
    }

    /// The nodes to explore at the current depth, in preorder. Each one that
    /// has no cursor yet gets one at the start of every chunk; other cursors
    /// stay as they are.
    pub fn begin_depth(&mut self) -> (r: Vec<usize>)
        requires
            old(self).wf(),
        ensures
            final(self).wf(),
            r@ == old(self).spec_tree().spec_nodes_at_depth(old(self).spec_depth()),
            final(self).spec_tree() == old(self).spec_tree(),
            final(self).spec_depth() == old(self).spec_depth(),
            final(self).spec_opts() == old(self).spec_opts(),
            final(self).spec_words() == old(self).spec_words(),
            final(self).spec_chunks() == old(self).spec_chunks(),
            forall|j: int|
                0 <= j < r@.len() ==> final(self).cursor_for(final(self).node_url(#[trigger] r@[j] as int)) is Some,
            forall|u: Seq<char>|
                old(self).cursor_for(u) is Some ==> #[trigger] final(self).cursor_for(u) == old(self).cursor_for(u),
            forall|u: Seq<char>|
                old(self).cursor_for(u) is None && #[trigger] final(self).cursor_for(u) is Some
                    ==> final(self).cursor_for(u) == Some(Seq::new(old(self).spec_t() as nat, |i: int| 0usize)),
    {
        let nodes = self.tree.get_nodes_at_depth(self.depth);
        proof {
            lemma_nodes_in_tree(&self.tree, self.depth);
        }
        let t = self.chunks.len();
        let mut j: usize = 0;
        while j < nodes.len()
            invariant
                self.wf(),
                j <= nodes.len(),
                t == self.spec_t(),
                nodes@ == old(self).spec_tree().spec_nodes_at_depth(old(self).spec_depth()),
                forall|m: int| 0 <= m < nodes@.len() ==> #[trigger] nodes@[m] < self.spec_tree().spec_len(),
                self.spec_tree() == old(self).spec_tree(),
                self.spec_depth() == old(self).spec_depth(),
                self.spec_opts() == old(self).spec_opts(),
                self.spec_words() == old(self).spec_words(),
                self.spec_chunks() == old(self).spec_chunks(),
                forall|m: int| 0 <= m < j ==> self.cursor_for(self.node_url(#[trigger] nodes@[m] as int)) is Some,
                forall|u: Seq<char>|
                    old(self).cursor_for(u) is Some ==> #[trigger] self.cursor_for(u) == old(self).cursor_for(u),
                forall|u: Seq<char>|
                    old(self).cursor_for(u) is None && #[trigger] self.cursor_for(u) is Some
                        ==> self.cursor_for(u) == Some(Seq::new(old(self).spec_t() as nat, |i: int| 0usize)),
            decreases nodes.len() - j,
        {
            let k = nodes[j];
            let u = self.tree.data(k).url.clone();
            if self.find_key(&u).is_none() {
                let ghost before = *self;
                let mut zeros: Vec<usize> = Vec::new();
                while zeros.len() < t
                    invariant
                        zeros.len() <= t,
                        forall|i: int| 0 <= i < zeros.len() ==> zeros@[i] == 0,
                    decreases t - zeros.len(),
                {
                    zeros.push(0);
                }
                self.keys.push(u);
                self.cursors.push(zeros);
                proof {
                    assert(self.spec_keys() =~= before.spec_keys().push(u@));
                    assert(self.spec_cursors() =~= before.spec_cursors().push(zeros@));
                    let ne = before.spec_keys().len() as int;
                    assert forall|a: int, b: int|
                        0 <= a < b < self.spec_keys().len() implies #[trigger] self.spec_keys()[a]
                        != #[trigger] self.spec_keys()[b] by {
                        if b < ne {
                            assert(before.spec_keys()[a] != before.spec_keys()[b]);
                        }
                    }
                    assert forall|e: int, i: int|
                        0 <= e < self.spec_cursors().len() && 0 <= i < t implies #[trigger] self.spec_cursors()[e][i]
                        <= self.spec_chunks()[i].len() by {
                        if e < ne {
                            assert(self.spec_cursors()[e] == before.spec_cursors()[e]);
                        }
                    }
                    assert forall|e: int| 0 <= e < self.spec_cursors().len() implies (
                    #[trigger] self.spec_cursors()[e]).len() == t by {
                        if e < ne {
                            assert(self.spec_cursors()[e] == before.spec_cursors()[e]);
                        }
                    }
                    assert(self.wf());
                    self.lemma_cursor_for_key(ne);
                    assert(zeros@ =~= Seq::new(old(self).spec_t() as nat, |i: int| 0usize));
                    assert forall|w: Seq<char>| #[trigger] before.cursor_for(w) is Some implies self.cursor_for(w)
                        == before.cursor_for(w) by {
                        let e = choose|e: int| 0 <= e < before.spec_keys().len() && before.spec_keys()[e] == w;
                        before.lemma_cursor_for_key(e);
                        assert(self.spec_keys()[e] == w);
                        self.lemma_cursor_for_key(e);
                    }
                    assert forall|w: Seq<char>|
                        old(self).cursor_for(w) is None && #[trigger] self.cursor_for(w) is Some implies self.cursor_for(w)
                        == Some(Seq::new(old(self).spec_t() as nat, |i: int| 0usize)) by {
                        if w == u@ {
                        } else {
                            let e = choose|e: int| 0 <= e < self.spec_keys().len() && self.spec_keys()[e] == w;
                            assert(e < ne);
                            assert(before.spec_keys()[e] == w);
                            before.lemma_cursor_for_key(e);
                        }
                    }
                    assert forall|w: Seq<char>| #[trigger] old(self).cursor_for(w) is Some implies self.cursor_for(w)
                        == old(self).cursor_for(w) by {
                        assert(before.cursor_for(w) == old(self).cursor_for(w));
                    }
                    assert forall|m: int| 0 <= m < j implies self.cursor_for(self.node_url(#[trigger] nodes@[m] as int)) is Some by {
                        assert(before.cursor_for(before.node_url(nodes@[m] as int)) is Some);
                    }
                }
            }
            j += 1;
        }
        nodes
    }

    /// The next URL for node `k` in chunk `i`: the word at its cursor under
    /// the node's URL, or None once the chunk is exhausted.
    pub fn next_url(&self, k: usize, i: usize) -> (r: Option<String>)
        requires
            self.wf(),
            k < self.spec_tree().spec_len(),
            i < self.spec_t(),
            self.cursor_for(self.node_url(k as int)) is Some,
        ensures
            ({
                let c = self.cursor_for(self.node_url(k as int))->0[i as int];
                if c < self.spec_chunks()[i as int].len() {
                    r matches Some(s) && s@ == child_url(self.node_url(k as int), self.spec_chunks()[i as int][c as int])
                } else {
                    r is None
                }
            }),
    {
        let c = self.cursor_at(k, i);
        if c < self.chunks[i].len() {
            assert(self.spec_chunks()[i as int] == word_views(self.chunks@[i as int]@));
            Some(join_url(&self.tree.data(k).url, &self.chunks[i][c]))
        } else {
            assert(self.spec_chunks()[i as int] == word_views(self.chunks@[i as int]@));
            None
        }
    }

    /// Reports what came of the request for node `k`'s next word in chunk
    /// `i`. A discovery whose word is not yet a child path of the node
    /// becomes the node's new last child, one level deeper; the cursor then
    /// moves past the word, whatever came of the request. Returns whether a
    /// node was added.
    pub fn complete(&mut self, k: usize, i: usize, outcome: Outcome) -> (r: bool)
        requires
            old(self).wf(),
            k < old(self).spec_tree().spec_len(),
            i < old(self).spec_t(),
            old(self).cursor_for(old(self).node_url(k as int)) is Some,
            old(self).cursor_for(old(self).node_url(k as int))->0[i as int]
                < old(self).spec_chunks()[i as int].len(),
            old(self).spec_tree().records()[k as int].depth < usize::MAX,
        ensures
            final(self).wf(),
            final(self).spec_depth() == old(self).spec_depth(),
            final(self).spec_opts() == old(self).spec_opts(),
            final(self).spec_words() == old(self).spec_words(),
            final(self).spec_chunks() == old(self).spec_chunks(),
            ({
                let t = old(self).spec_tree();
                let u = old(self).node_url(k as int);
                let c = old(self).cursor_for(u)->0;
                let word = old(self).spec_chunks()[i as int][c[i as int] as int];
                let fresh = !exists|j: int|
                    0 <= j < t.kids()[k as int].len() && (#[trigger] t.records()[t.kids()[k as int][j] as int]).path@
                        == word;
                &&& final(self).cursor_for(u) == Some(c.update(i as int, (c[i as int] + 1) as usize))
                &&& forall|v: Seq<char>| v != u ==> #[trigger] final(self).cursor_for(v) == old(self).cursor_for(v)
                &&& match spec_discovery(outcome, old(self).spec_opts().hit_connection_errors) {
                    Some((status, extra)) if fresh => {
                        &&& r
                        &&& final(self).spec_tree().kids() == t.kids().update(
                            k as int,
                            t.kids()[k as int].push(t.spec_len() as usize),
                        ).push(Seq::<usize>::empty())
                        &&& final(self).spec_tree().records().drop_last() == t.records()
                        &&& final(self).spec_tree().records().last().url@ == child_url(u, word)
                        &&& final(self).spec_tree().records().last().depth == t.records()[k as int].depth + 1
                        &&& final(self).spec_tree().records().last().path@ == word
                        &&& final(self).spec_tree().records().last().status_code == status
                        &&& final(self).spec_tree().records().last().extra@ == extra
                    },
                    _ => !r && final(self).spec_tree() == t,
                }
            }),
            old(self).spec_tree().depths_follow_parents() ==> final(self).spec_tree().depths_follow_parents(),
    {
        let ghost before = *self;
        let u = self.tree.data(k).url.clone();
        let e = match self.find_key(&u) {
            Some(e) => e,
            None => {
                assert(false);
                0
            },
        };
        proof {
            self.lemma_cursor_for_key(e as int);
        }
        let c = self.cursors[e][i];
        assert(self.spec_cursors()[e as int][i as int] == c);
        assert(self.spec_chunks()[i as int].len() == self.chunks@[i as int]@.len());
        let clen = self.chunks[i].len();
        assert(c < clen);
        let word = self.chunks[i][c].clone();
        assert(self.spec_chunks()[i as int] == word_views(self.chunks@[i as int]@));
        let url = join_url(&u, &word);
        let parent_depth = self.tree.data(k).depth;
        let found = discovery(outcome, self.opts.hit_connection_errors);
        let mut added = false;
        if let Some((status_code, extra)) = found {
            if !self.tree.has_child_path(k, &word) {
                let data = TreeData { url, depth: parent_depth + 1, path: word, status_code, extra };
                let _ = self.tree.insert(data, Some(k));
                added = true;
                proof {
                    assert(self.tree.records().drop_last() =~= before.tree.records());
                }
            }
        }
        let mut cur = self.cursors[e].clone();
        assert(cur@ =~= before.spec_cursors()[e as int]);
        cur.set(i, c + 1);
        self.cursors.set(e, cur);
        proof {
            assert(self.spec_cursors() =~= before.spec_cursors().update(e as int, cur@));
            assert(self.spec_keys() == before.spec_keys());
            assert forall|e2: int, i2: int|
                0 <= e2 < self.spec_cursors().len() && 0 <= i2 < self.spec_t() implies #[trigger] self.spec_cursors()[e2][i2]
                <= self.spec_chunks()[i2].len() by {
                if e2 != e {
                    assert(self.spec_cursors()[e2] == before.spec_cursors()[e2]);
                }
            }
            assert forall|e2: int| 0 <= e2 < self.spec_cursors().len() implies (
            #[trigger] self.spec_cursors()[e2]).len() == self.spec_t() by {
                if e2 != e {
                    assert(self.spec_cursors()[e2] == before.spec_cursors()[e2]);
                }
            }
            assert(self.wf());
            self.lemma_cursor_for_key(e as int);
            assert(self.node_url(k as int) == before.node_url(k as int));
            assert forall|v: Seq<char>| v != u@ implies #[trigger] self.cursor_for(v) == before.cursor_for(v) by {
                if exists|e2: int| 0 <= e2 < before.spec_keys().len() && before.spec_keys()[e2] == v {
                    let e2 = choose|e2: int| 0 <= e2 < before.spec_keys().len() && before.spec_keys()[e2] == v;
                    before.lemma_cursor_for_key(e2);
                    self.lemma_cursor_for_key(e2);
                }
            }
        }
        added
    }

    /// Moves to the next depth, once every node of the current one has been
    /// explored.
    pub fn finish_depth(&mut self)
        requires
            old(self).wf(),
            old(self).spec_depth() < usize::MAX,
        ensures
            final(self).wf(),
            final(self).spec_depth() == old(self).spec_depth() + 1,
            final(self).spec_tree() == old(self).spec_tree(),
            final(self).spec_opts() == old(self).spec_opts(),
            final(self).spec_words() == old(self).spec_words(),
            final(self).spec_chunks() == old(self).spec_chunks(),
            forall|u: Seq<char>| #[trigger] final(self).cursor_for(u) == old(self).cursor_for(u),
    {
        self.depth = self.depth + 1;
    }
}

/// Every node returned for a depth is a node of the tree.
proof fn lemma_nodes_in_tree(t: &Tree, d: usize)
    requires
        t.wf(),
    ensures
        forall|m: int|
            0 <= m < t.spec_nodes_at_depth(d).len() ==> #[trigger] t.spec_nodes_at_depth(d)[m] < t.spec_len(),
{
    assert forall|m: int| 0 <= m < t.spec_nodes_at_depth(d).len() implies #[trigger] t.spec_nodes_at_depth(d)[m]
        < t.spec_len() by {
        let s = crate::tree::subtree(t.kids(), 0);
        let p = crate::tree::has_depth(t.records(), d);
        let x = t.spec_nodes_at_depth(d)[m];
        assert(s.filter(p).contains(x));
        s.lemma_filter_contains_rev(p, x);
        let w = choose|w: int| 0 <= w < s.len() && s[w] == x;
        crate::tree::lemma_subtree_in_range(t.kids(), 0);
        assert(s[w] < t.kids().len());
    }
}

/// The positions of one cursor, summed over the first `m` chunks, stay
/// within the words of those chunks, and reach them when every chunk is
/// exhausted.
proof fn lemma_prefix_total(c: Seq<usize>, lens: Seq<int>, n: int, t: int, m: int)
    requires
        0 < t <= n,
        0 <= m <= t,
        c.len() == t,
        lens.len() == t,
        forall|i: int| 0 <= i < t ==> #[trigger] lens[i] == chunk_end(n, t, i) - chunk_start(n, t, i),
        forall|i: int| 0 <= i < t ==> #[trigger] c[i] <= lens[i],
    ensures
        total(c.take(m)) <= (if m == t { n } else { m * (n / t) }),
        (forall|i: int| 0 <= i < m ==> #[trigger] c[i] == lens[i]) ==> total(c.take(m)) == (if m == t {
            n
        } else {
            m * (n / t)
        }),
    decreases m,
{
    if m > 0 {
        lemma_prefix_total(c, lens, n, t, m - 1);
        assert(c.take(m).drop_last() =~= c.take(m - 1));
        lemma_chunk_bounds(n, t, m - 1);
        assert((m - 1) * (n / t) + (n / t) == m * (n / t)) by (nonlinear_arith);
    } else {
        assert(c.take(0) =~= Seq::<usize>::empty());
    }
}

impl Recursive {
    /// However far a node's cursor has come, its positions sum to at most
    /// the number of words, and to exactly that once every chunk of that
    /// node is exhausted.
    pub proof fn lemma_cursor_total(&self, u: Seq<char>)
        requires
            self.wf(),
            self.cursor_for(u) is Some,
        ensures
            total(self.cursor_for(u)->0) <= self.spec_words().len(),
            (forall|i: int|
                0 <= i < self.spec_t() ==> #[trigger] self.cursor_for(u)->0[i] == self.spec_chunks()[i].len())
                ==> total(self.cursor_for(u)->0) == self.spec_words().len(),
    {
        let e = choose|e: int| 0 <= e < self.spec_keys().len() && self.spec_keys()[e] == u;
        self.lemma_cursor_for_key(e);
        let c = self.spec_cursors()[e];
        let n = self.spec_words().len() as int;
        let t = self.spec_t();
        let lens = Seq::new(t as nat, |i: int| self.spec_chunks()[i].len() as int);
        assert forall|i: int| 0 <= i < t implies #[trigger] lens[i] == chunk_end(n, t, i) - chunk_start(n, t, i) by {
            lemma_chunk_bounds(n, t, i);
            assert(self.spec_chunks()[i] == self.spec_words().subrange(chunk_start(n, t, i), chunk_end(n, t, i)));
        }
        assert forall|i: int| 0 <= i < t implies #[trigger] c[i] <= lens[i] by {
            assert(self.spec_cursors()[e][i] <= self.spec_chunks()[i].len());
        }
        lemma_prefix_total(c, lens, n, t, t);
        assert(c.take(t) =~= c);
    }

    /// The state to save: the tree, the depth, the given checksum and every
    /// cursor under its URL.
    pub fn into_save(self, wordlist_checksum: String) -> (r: SaveRecord)
        requires
            self.wf(),
        ensures
            holds_save(self, r),
            r.wordlist_checksum@ == wordlist_checksum@,
    {
        let ghost keys_view = self.spec_keys();
        let ghost cursors_view = self.spec_cursors();
        let Recursive { opts, depth, tree, keys, cursors, chunks, words } = self;
        assert(word_views(keys@) == keys_view);
        assert(cursors@.map_values(|c: Vec<usize>| c@) == cursors_view);
        let mut indexes: Vec<CursorEntry> = Vec::new();
        let mut e: usize = 0;
        while e < keys.len()
            invariant
                e <= keys.len(),
                keys.len() == cursors.len(),
                indexes.len() == e,
                forall|m: int|
                    0 <= m < e ==> (#[trigger] indexes@[m]).url@ == keys@[m]@ && indexes@[m].cursor@
                        == cursors@[m]@,
            decreases keys.len() - e,
        {
            let cur = cursors[e].clone();
            assert(cur@ =~= cursors@[e as int]@);
            indexes.push(CursorEntry { url: keys[e].clone(), cursor: cur });
            e += 1;
        }
        SaveRecord { tree, depth, wordlist_checksum, indexes }
    }

    /// Takes up a checkpoint for a crawl of `url` over `words`. The saved
    /// tree must be well formed and rooted at `url`. The tree and depth are
    /// taken as saved; the cursors are taken too when the checksum is the
    /// current one and every saved cursor fits this crawl's chunks, and
    /// otherwise start afresh. The flag says whether they were taken.
    pub fn resume(
        record: SaveRecord,
        opts: RunOptions,
        url: &String,
        current_checksum: &String,
        words: Vec<String>,
        threads: usize,
    ) -> (r: Result<(Recursive, bool), ResumeError>)
        requires
            words.len() > 0,
        ensures
            !record.tree.wf() || record.tree.spec_len() == 0 ==> r == Err::<(Recursive, bool), ResumeError>(
                ResumeError::BadTree,
            ),
            record.tree.wf() && record.tree.spec_len() > 0 && record.tree.records()[0].url@ != url@
                ==> r == Err::<(Recursive, bool), ResumeError>(ResumeError::UrlMismatch),
            record.tree.wf() && record.tree.spec_len() > 0 && record.tree.records()[0].url@ == url@
                ==> r is Ok,
            r matches Ok((s, kept)) ==> {
                &&& s.wf()
                &&& s.spec_tree() == record.tree
                &&& s.spec_depth() == record.depth
                &&& (kept ==> holds_save(s, record))
                &&& s.spec_opts() == opts
                &&& s.spec_words() == word_views(words@)
                &&& s.spec_t() == chunk_count(threads as int, words.len() as int)
                &&& (kept ==> record.wordlist_checksum@ == current_checksum@)
                &&& (kept ==> s.spec_keys().len() == record.indexes.len() && forall|e: int|
                    0 <= e < record.indexes.len() ==> s.spec_keys()[e] == (#[trigger] record.indexes@[e]).url@
                        && s.spec_cursors()[e] == record.indexes@[e].cursor@)
                &&& (!kept ==> s.spec_keys().len() == 0)
            },
    {
        let SaveRecord { tree, depth, wordlist_checksum, indexes } = record;
        if !tree.is_wf() || tree.len() == 0 {
            return Err(ResumeError::BadTree);
        }
        if tree.data(0).url != *url {
            return Err(ResumeError::UrlMismatch);
        }
        let mut s = Recursive::new(opts, tree, words, threads);
        s.depth = depth;
        if wordlist_checksum != *current_checksum {
            return Ok((s, false));
        }
        match s.checked_cursors(&indexes) {
            None => Ok((s, false)),
            Some((keys, cursors)) => {
                s.keys = keys;
                s.cursors = cursors;
                proof {
                    assert forall|a: int, b: int|
                        0 <= a < b < s.spec_keys().len() implies #[trigger] s.spec_keys()[a]
                        != #[trigger] s.spec_keys()[b] by {
                        assert(keys@[a]@ != keys@[b]@);
                    }
                    assert forall|e2: int| 0 <= e2 < s.spec_cursors().len() implies (
                    #[trigger] s.spec_cursors()[e2]).len() == s.spec_t() by {
                        assert(cursors@[e2]@.len() == s.spec_t());
                    }
                    assert forall|e2: int, i: int|
                        0 <= e2 < s.spec_cursors().len() && 0 <= i < s.spec_t() implies #[trigger] s.spec_cursors()[e2][i]
                        <= s.spec_chunks()[i].len() by {
                        assert(cursors@[e2]@[i] <= s.spec_chunks()[i].len());
                    }
                }
        Ok((s, true))
            },
        }
    }

    /// The saved cursors, if every one fits this crawl's chunks and no URL
    /// comes twice.
    fn checked_cursors(&self, indexes: &Vec<CursorEntry>) -> (r: Option<(Vec<String>, Vec<Vec<usize>>)>)
        requires
            self.wf(),
        ensures
            r matches Some((keys, cursors)) ==> {
                &&& keys.len() == indexes.len()
                &&& cursors.len() == indexes.len()
                &&& forall|m: int|
                    0 <= m < keys.len() ==> (#[trigger] keys@[m])@ == indexes@[m].url@ && cursors@[m]@
                        == indexes@[m].cursor@
                &&& forall|m: int| 0 <= m < cursors.len() ==> (#[trigger] cursors@[m])@.len() == self.spec_t()
                &&& forall|m: int, i: int|
                    0 <= m < cursors.len() && 0 <= i < self.spec_t() ==> #[trigger] cursors@[m]@[i]
                        <= self.spec_chunks()[i].len()
                &&& forall|a: int, b: int| 0 <= a < b < keys.len() ==> (#[trigger] keys@[a])@ != (#[trigger] keys@[b])@
            },
    {
        let s = self;
        let t = s.chunks.len();
        let mut keys: Vec<String> = Vec::new();
        let mut cursors: Vec<Vec<usize>> = Vec::new();
        let mut e: usize = 0;
        while e < indexes.len()
            invariant
                s.wf(),
                t == s.spec_t(),
                e <= indexes.len(),
                keys.len() == e,
                cursors.len() == e,
                forall|m: int|
                    0 <= m < e ==> (#[trigger] keys@[m])@ == indexes@[m].url@ && cursors@[m]@
                        == indexes@[m].cursor@,
                forall|m: int| 0 <= m < e ==> (#[trigger] cursors@[m])@.len() == t,
                forall|m: int, i: int|
                    0 <= m < e && 0 <= i < t ==> #[trigger] cursors@[m]@[i] <= s.spec_chunks()[i].len(),
                forall|a: int, b: int| 0 <= a < b < e ==> (#[trigger] keys@[a])@ != (#[trigger] keys@[b])@,
            decreases indexes.len() - e,
        {
            let entry = &indexes[e];
            if entry.cursor.len() != t {
                return None;
            }
            let mut i: usize = 0;
            while i < t
                invariant
                    s.wf(),
                    t == s.spec_t(),
                    i <= t,
                    entry.cursor.len() == t,
                    forall|j: int| 0 <= j < i ==> #[trigger] entry.cursor@[j] <= s.spec_chunks()[j].len(),
                decreases t - i,
            {
                assert(s.spec_chunks()[i as int] == word_views(s.chunks@[i as int]@));
                if entry.cursor[i] > s.chunks[i].len() {
                    return None;
                }
                i += 1;
            }
            let mut a: usize = 0;
            while a < keys.len()
                invariant
                    a <= keys.len(),
                    forall|m: int| 0 <= m < a ==> (#[trigger] keys@[m])@ != entry.url@,
                decreases keys.len() - a,
            {
                if keys[a] == entry.url {
                    return None;
                }
                a += 1;
            }
            let cur = entry.cursor.clone();
            assert(cur@ =~= entry.cursor@);
            keys.push(entry.url.clone());
            cursors.push(cur);
            e += 1;
        }
        Some((keys, cursors))
    }
}

/// `s` is in the state that `rec` records: the same tree and depth, and
/// the same cursors under the same URLs in the same order.
pub open spec fn holds_save(s: Recursive, rec: SaveRecord) -> bool {
    &&& rec.tree == s.spec_tree()
    &&& rec.depth == s.spec_depth()
    &&& rec.indexes.len() == s.spec_keys().len()
    &&& forall|e: int|
        0 <= e < rec.indexes.len() ==> (#[trigger] rec.indexes@[e]).url@ == s.spec_keys()[e]
            && rec.indexes@[e].cursor@ == s.spec_cursors()[e]
}

/// Two checkpoints hold the same tree, depth, checksum and cursors.
pub open spec fn same_save(a: SaveRecord, b: SaveRecord) -> bool {
    &&& a.tree == b.tree
    &&& a.depth == b.depth
    &&& a.wordlist_checksum@ == b.wordlist_checksum@
    &&& a.indexes.len() == b.indexes.len()
    &&& forall|e: int|
        0 <= e < a.indexes.len() ==> (#[trigger] a.indexes@[e]).url@ == b.indexes@[e].url@
            && a.indexes@[e].cursor@ == b.indexes@[e].cursor@
}

/// Saving is a fixed point of loading: a state taken up from a checkpoint
/// with its cursors (`resume` with the flag set) and saved again under the
/// same checksum (`into_save`) gives that checkpoint back.
pub proof fn lemma_save_load_fixed_point(s: Recursive, loaded: SaveRecord, saved: SaveRecord)
    requires
        holds_save(s, loaded),
        holds_save(s, saved),
        saved.wordlist_checksum@ == loaded.wordlist_checksum@,
    ensures
        same_save(saved, loaded),
{
}

/// A tree holding only its root has every child one level below its parent.
pub proof fn lemma_root_only_depths(t: Tree)
    requires
        t.wf(),
        t.spec_len() == 1,
    ensures
        t.depths_follow_parents(),
{
    assert forall|i: int, j: int| 0 <= i < t.kids().len() && 0 <= j < t.kids()[i].len() implies (
    #[trigger] t.records()[t.kids()[i][j] as int]).depth == t.records()[i].depth + 1 by {
        assert(i < t.kids()[i][j] < t.kids().len());
    }
}

} // verus!
