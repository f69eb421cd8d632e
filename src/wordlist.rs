//! The wordlist pipeline: load, filter, transform, sort, deduplicate, and
//! the checksum that ties a checkpoint to the words it was taken with.
use vstd::prelude::*;
use sha2::Digest;
use crate::text::{
    append_chars, chars_of, interleave, interleave_exec, occurs_at, occurs_at_exec, segments,
    split_on, string_of, views,
};

verus! {

/// The views of a sequence of strings.
pub open spec fn word_views(v: Seq<String>) -> Seq<Seq<char>> {
    v.map_values(|w: String| w@)
}

/// Holds of a non-empty line.
pub open spec fn is_nonempty() -> spec_fn(Seq<char>) -> bool {
    |l: Seq<char>| l.len() > 0
}

/// The non-empty lines of `s`.
pub open spec fn lines_of(s: Seq<char>) -> Seq<Seq<char>> {
    segments(s, seq!['\n']).filter(is_nonempty())
}

/// The non-empty lines of each file, file after file.
pub open spec fn loaded(files: Seq<Seq<char>>) -> Seq<Seq<char>>
    decreases files.len(),
{
    if files.len() == 0 {
        Seq::<Seq<char>>::empty()
    } else {
        loaded(files.drop_last()) + lines_of(files.last())
    }
}

/// `k` occurs somewhere in `s`.
pub open spec fn contains(s: Seq<char>, k: Seq<char>) -> bool {
    exists|i: int| occurs_at(s, k, i)
}

/// A rule that a word must meet to stay in the list.
pub enum WordFilter {
    MinLength(usize),
    MaxLength(usize),
    Contains(String),
    Excludes(String),
}

/// A rewrite applied to every word that stays.
pub enum WordTransform {
    Prefix(String),
    Suffix(String),
    /// Replaces each occurrence of the first string by the second.
    Replace(String, String),
}

/// Word `w` meets filter `f`.
pub open spec fn keeps(f: WordFilter, w: Seq<char>) -> bool {
    match f {
        WordFilter::MinLength(n) => w.len() >= n,
        WordFilter::MaxLength(n) => w.len() <= n,
        WordFilter::Contains(s) => contains(w, s@),
        WordFilter::Excludes(s) => !contains(w, s@),
    }
}

/// Word `w` meets every filter.
pub open spec fn keeps_all(fs: Seq<WordFilter>, w: Seq<char>) -> bool {
    forall|i: int| 0 <= i < fs.len() ==> keeps(#[trigger] fs[i], w)
}

/// Every occurrence of `from` in `w` replaced by `to`.
pub open spec fn replace_all(w: Seq<char>, from: Seq<char>, to: Seq<char>) -> Seq<char> {
    interleave(segments(w, from), Seq::new((segments(w, from).len() - 1) as nat, |i: int| to))
}

/// Word `w` rewritten by `t`.
pub open spec fn transform(t: WordTransform, w: Seq<char>) -> Seq<char> {
    match t {
        WordTransform::Prefix(p) => p@ + w,
        WordTransform::Suffix(x) => w + x@,
        WordTransform::Replace(a, b) => replace_all(w, a@, b@),
    }
}

/// Word `w` rewritten by each transform in turn.
pub open spec fn transform_all(ts: Seq<WordTransform>, w: Seq<char>) -> Seq<char>
    decreases ts.len(),
{
    if ts.len() == 0 {
        w
    } else {
        transform(ts.last(), transform_all(ts.drop_last(), w))
    }
}

/// The words that meet every filter, each rewritten by the transforms.
pub open spec fn filtered_transformed(
    ws: Seq<Seq<char>>,
    fs: Seq<WordFilter>,
    ts: Seq<WordTransform>,
) -> Seq<Seq<char>> {
    ws.filter(keeps_all_fn(fs)).map_values(transform_all_fn(ts))
}

/// `keeps_all(fs, _)` as a predicate.
pub open spec fn keeps_all_fn(fs: Seq<WordFilter>) -> spec_fn(Seq<char>) -> bool {
    |w: Seq<char>| keeps_all(fs, w)
}

/// `transform_all(ts, _)` as a function.
pub open spec fn transform_all_fn(ts: Seq<WordTransform>) -> spec_fn(Seq<char>) -> Seq<char> {
    |w: Seq<char>| transform_all(ts, w)
}

/// `a` comes before `b` or equals it, comparing character codes from the left;
/// a proper prefix comes first.
pub open spec fn lex_le(a: Seq<char>, b: Seq<char>) -> bool
    decreases a.len(),
{
    if a.len() == 0 {
        true
    } else if b.len() == 0 {
        false
    } else if a[0] != b[0] {
        (a[0] as u32) < (b[0] as u32)
    } else {
        lex_le(a.drop_first(), b.drop_first())
    }
}

/// Each word comes before or equals every later one.
pub open spec fn is_sorted(ws: Seq<Seq<char>>) -> bool {
    forall|i: int, j: int| 0 <= i < j < ws.len() ==> lex_le(#[trigger] ws[i], #[trigger] ws[j])
}

/// `ws` with each run of equal neighbours cut to one word.
pub open spec fn dedup_adjacent(ws: Seq<Seq<char>>) -> Seq<Seq<char>>
    decreases ws.len(),
{
    if ws.len() <= 1 {
        ws
    } else if ws.last() == ws[ws.len() - 2] {
        dedup_adjacent(ws.drop_last())
    } else {
        dedup_adjacent(ws.drop_last()).push(ws.last())
    }
}

/// The words joined by single newlines.
pub open spec fn joined(ws: Seq<Seq<char>>) -> Seq<char>
    decreases ws.len(),
{
    if ws.len() == 0 {
        Seq::<char>::empty()
    } else if ws.len() == 1 {
        ws[0]
    } else {
        joined(ws.drop_last()) + seq!['\n'] + ws.last()
    }
}

/// The lowercase hex SHA-256 digest of the UTF-8 encoding of `s`.
pub uninterp spec fn sha256_hex_of(s: Seq<char>) -> Seq<char>;

/// The checksum of a final wordlist.
pub open spec fn checksum_of(ws: Seq<Seq<char>>) -> Seq<char> {
    sha256_hex_of(joined(ws))
}

/// Relies on sha2::Sha256::digest and its LowerHex output: the digest of
/// the bytes of `s`, as 64 lowercase hex digits.
#[verifier::external_body]
fn sha256_hex(s: &str) -> (r: String)
    ensures
        r@ == sha256_hex_of(s@),
        r@.len() == 64,
{
    format!("{:x}", sha2::Sha256::digest(s.as_bytes()))
}

/// Relies on slice::sort_unstable over String's order, which compares the
/// UTF-8 bytes and so the character codes: the same words, in order.
#[verifier::external_body]
fn sort_words(v: &mut Vec<String>)
    ensures
        word_views(final(v)@).to_multiset() == word_views(old(v)@).to_multiset(),
        final(v)@.len() == old(v)@.len(),
        is_sorted(word_views(final(v)@)),
{
    v.sort_unstable()
}

/// The non-empty lines of every file, file after file.
pub fn load_words(files: &Vec<String>) -> (r: Vec<String>)
    ensures
        word_views(r@) == loaded(word_views(files@)),
{
    let nl: Vec<char> = vec!['\n'];
    let mut out: Vec<String> = Vec::new();
    let mut f: usize = 0;
    while f < files.len()
        invariant
            f <= files.len(),
            nl@ == seq!['\n'],
            word_views(out@) == loaded(word_views(files@).take(f as int)),
        decreases files.len() - f,
    {
        let text = chars_of(files[f].as_str());
        let lines = split_on(&text, &nl);
        let ghost base = word_views(out@);
        let ghost segs = views(lines@);
        let mut j: usize = 0;
        while j < lines.len()
            invariant
                f < files.len(),
                j <= lines.len(),
                segs == views(lines@),
                word_views(out@) == base + segs.take(j as int).filter(is_nonempty()),
            decreases lines.len() - j,
        {
            let ghost prev = out@;
            if lines[j].len() > 0 {
                let w = string_of(&lines[j]);
                out.push(w);
                assert(word_views(out@) =~= word_views(prev).push(lines@[j as int]@));
            }
            proof {
                assert(segs.take(j + 1).drop_last() =~= segs.take(j as int));
                assert(segs.take(j + 1).last() == lines@[j as int]@);
                let x = lines@[j as int]@;
                assert(segs.take(j + 1).filter(is_nonempty()) == if x.len() > 0 {
                    segs.take(j as int).filter(is_nonempty()).push(x)
                } else {
                    segs.take(j as int).filter(is_nonempty())
                }) by {
                    reveal(Seq::filter);
                }
                assert(base + segs.take(j as int).filter(is_nonempty()).push(x) =~= (base
                    + segs.take(j as int).filter(is_nonempty())).push(x));
                assert(word_views(out@) =~= base + segs.take(j + 1).filter(is_nonempty()));
            }
            j += 1;
        }
        proof {
            let wf = word_views(files@);
            assert(segs.take(lines.len() as int) =~= segs);
            assert(wf.take(f + 1).drop_last() =~= wf.take(f as int));
            assert(wf.take(f + 1).last() == files@[f as int]@);
        }
        f += 1;
    }
    proof {
        assert(word_views(files@).take(files.len() as int) =~= word_views(files@));
    }
    out
}

/// Whether `k` occurs somewhere in `s`.
pub fn contains_exec(s: &Vec<char>, k: &Vec<char>) -> (r: bool)
    ensures
        r == contains(s@, k@),
{
    let mut i: usize = 0;
    while i < s.len()
        invariant
            i <= s.len(),
            forall|m: int| 0 <= m < i ==> !occurs_at(s@, k@, m),
        decreases s.len() - i,
    {
        if occurs_at_exec(s, k, i) {
            return true;
        }
        i += 1;
    }
    occurs_at_exec(s, k, i)
}

/// Whether `w` meets `f`.
pub fn keeps_exec(f: &WordFilter, w: &Vec<char>) -> (r: bool)
    ensures
        r == keeps(*f, w@),
{
    match f {
        WordFilter::MinLength(n) => w.len() >= *n,
        WordFilter::MaxLength(n) => w.len() <= *n,
        WordFilter::Contains(s) => contains_exec(w, &chars_of(s.as_str())),
        WordFilter::Excludes(s) => !contains_exec(w, &chars_of(s.as_str())),
    }
}

/// Every occurrence of `from` in `w` replaced by `to`.
pub fn replace_all_exec(w: &Vec<char>, from: &Vec<char>, to: &Vec<char>) -> (r: Vec<char>)
    ensures
        r@ == replace_all(w@, from@, to@),
{
    let segs = split_on(w, from);
    proof {
        crate::text::lemma_segments_nonempty(w@, from@);
    }
    let mut fills: Vec<Vec<char>> = Vec::new();
    while fills.len() + 1 < segs.len()
        invariant
            fills.len() + 1 <= segs.len(),
            forall|i: int| 0 <= i < fills.len() ==> (#[trigger] fills@[i])@ == to@,
        decreases segs.len() - fills.len(),
    {
        let c = to.clone();
        assert(c@ =~= to@);
        fills.push(c);
    }
    let r = interleave_exec(&segs, &fills);
    assert(views(fills@) =~= Seq::new((segments(w@, from@).len() - 1) as nat, |i: int| to@));
    r
}

/// `w` rewritten by `t`.
pub fn transform_exec(t: &WordTransform, w: &Vec<char>) -> (r: Vec<char>)
    ensures
        r@ == transform(*t, w@),
{
    match t {
        WordTransform::Prefix(p) => {
            let mut out = chars_of(p.as_str());
            append_chars(&mut out, w);
            out
        },
        WordTransform::Suffix(x) => {
            let mut out = w.clone();
            assert(out@ =~= w@);
            append_chars(&mut out, &chars_of(x.as_str()));
            out
        },
        WordTransform::Replace(a, b) => replace_all_exec(
            w,
            &chars_of(a.as_str()),
            &chars_of(b.as_str()),
        ),
    }
}

/// Keeps the words that meet every filter and rewrites each by the
/// transforms in order.
pub fn filter_transform(
    words: &Vec<String>,
    filters: &Vec<WordFilter>,
    transforms: &Vec<WordTransform>,
) -> (r: Vec<String>)
    ensures
        word_views(r@) == filtered_transformed(word_views(words@), filters@, transforms@),
{
    let ghost keep = keeps_all_fn(filters@);
    let ghost tf = transform_all_fn(transforms@);
    let mut out: Vec<String> = Vec::new();
    let mut i: usize = 0;
    while i < words.len()
        invariant
            i <= words.len(),
            keep == keeps_all_fn(filters@),
            tf == transform_all_fn(transforms@),
            word_views(out@) == word_views(words@).take(i as int).filter(keep).map_values(tf),
        decreases words.len() - i,
    {
        let w = chars_of(words[i].as_str());
        let mut ok = true;
        let mut k: usize = 0;
        while k < filters.len()
            invariant
                k <= filters.len(),
                ok == (forall|m: int| 0 <= m < k ==> keeps(#[trigger] filters@[m], w@)),
            decreases filters.len() - k,
        {
            let kept = keeps_exec(&filters[k], &w);
            ok = ok && kept;
            k += 1;
        }
        if ok {
            let mut cur = w;
            let mut t: usize = 0;
            while t < transforms.len()
                invariant
                    t <= transforms.len(),
                    cur@ == transform_all(transforms@.take(t as int), w@),
                decreases transforms.len() - t,
            {
                cur = transform_exec(&transforms[t], &cur);
                assert(transforms@.take(t + 1).drop_last() =~= transforms@.take(t as int));
                t += 1;
            }
            assert(transforms@.take(transforms.len() as int) =~= transforms@);
            out.push(string_of(&cur));
        }
        proof {
            let wv = word_views(words@);
            assert(wv.take(i + 1).drop_last() =~= wv.take(i as int));
            assert(wv.take(i + 1).last() == w@);
            assert(keep(w@) == ok);
            let pre = wv.take(i as int).filter(keep);
            assert(wv.take(i + 1).filter(keep) == if ok {
                pre.push(w@)
            } else {
                pre
            }) by {
                reveal(Seq::filter);
            }
            if ok {
                assert(pre.push(w@).map_values(tf) =~= pre.map_values(tf).push(tf(w@)));
            }
            assert(word_views(out@) =~= wv.take(i + 1).filter(keep).map_values(tf));
        }
        i += 1;
    }
    assert(word_views(words@).take(words.len() as int) =~= word_views(words@));
    out
}

/// Cuts each run of equal neighbouring words to one.
pub fn dedup_words(words: Vec<String>) -> (r: Vec<String>)
    ensures
        word_views(r@) == dedup_adjacent(word_views(words@)),
{
    let ghost wv = word_views(words@);
    let mut out: Vec<String> = Vec::new();
    let mut i: usize = 0;
    while i < words.len()
        invariant
            i <= words.len(),
            wv == word_views(words@),
            word_views(out@) == dedup_adjacent(wv.take(i as int)),
            i > 0 ==> out@.len() > 0 && out@.last()@ == wv[i - 1],
        decreases words.len() - i,
    {
        let ghost t = wv.take(i + 1);
        assert(t.drop_last() =~= wv.take(i as int));
        if i > 0 && words[i] == words[i - 1] {
            assert(t.last() == t[t.len() - 2]);
        } else {
            if i > 0 {
                assert(t.last() != t[t.len() - 2]);
            } else {
                assert(dedup_adjacent(t) == t);
            }
            out.push(words[i].clone());
            assert(word_views(out@) =~= dedup_adjacent(t));
        }
        i += 1;
    }
    assert(wv.take(words.len() as int) =~= wv);
    out
}

/// Why a wordlist could not be prepared.
#[derive(Debug, PartialEq, Eq, Structural)]
pub enum WordlistError {
    /// No word is left after filtering.
    Empty,
}

/// `r` is the final list made from the words `ws`: some ordering of them by
/// `lex_le`, with each run of equal words cut to one.
pub open spec fn is_final_list(r: Seq<Seq<char>>, ws: Seq<Seq<char>>) -> bool {
    exists|s: Seq<Seq<char>>|
        #![trigger dedup_adjacent(s)]
        s.to_multiset() == ws.to_multiset() && s.len() == ws.len() && is_sorted(s) && r
            == dedup_adjacent(s)
}

/// Dropping neighbouring repeats leaves a list empty only if it was empty.
pub proof fn lemma_dedup_empty(ws: Seq<Seq<char>>)
    ensures
        dedup_adjacent(ws).len() == 0 <==> ws.len() == 0,
    decreases ws.len(),
{
    if ws.len() > 1 {
        lemma_dedup_empty(ws.drop_last());
    }
}

/// Two words that each come before or equal the other are equal.
pub proof fn lemma_lex_antisymmetric(a: Seq<char>, b: Seq<char>)
    requires
        lex_le(a, b),
        lex_le(b, a),
    ensures
        a == b,
    decreases a.len(),
{
    if a.len() > 0 && b.len() > 0 && a[0] == b[0] {
        lemma_lex_antisymmetric(a.drop_first(), b.drop_first());
        assert(a =~= seq![a[0]] + a.drop_first());
        assert(b =~= seq![b[0]] + b.drop_first());
    } else if a.len() > 0 && b.len() > 0 {
        assert((a[0] as u32) != (b[0] as u32));
    }
}

/// No word appears twice.
pub open spec fn all_distinct(ws: Seq<Seq<char>>) -> bool {
    forall|i: int, j: int| 0 <= i < j < ws.len() ==> #[trigger] ws[i] != #[trigger] ws[j]
}

/// Cutting runs of equal neighbours keeps the last word, keeps only words of
/// the list, and leaves no equal neighbours; a sorted list stays sorted.
proof fn lemma_dedup_shape(ws: Seq<Seq<char>>)
    ensures
        ws.len() > 0 ==> dedup_adjacent(ws).len() > 0 && dedup_adjacent(ws).last() == ws.last(),
        forall|i: int| 0 <= i < dedup_adjacent(ws).len() ==> ws.contains(#[trigger] dedup_adjacent(ws)[i]),
        forall|i: int|
            0 <= i < dedup_adjacent(ws).len() - 1 ==> #[trigger] dedup_adjacent(ws)[i] != dedup_adjacent(ws)[i + 1],
        is_sorted(ws) ==> is_sorted(dedup_adjacent(ws)),
    decreases ws.len(),
{
    if ws.len() > 1 {
        let pre = ws.drop_last();
        lemma_dedup_shape(pre);
        let d = dedup_adjacent(pre);
        assert forall|i: int| 0 <= i < d.len() implies ws.contains(#[trigger] d[i]) by {
            let w = choose|w: int| 0 <= w < pre.len() && pre[w] == d[i];
            assert(ws[w] == d[i]);
        }
        if is_sorted(ws) {
            assert(is_sorted(pre)) by {
                assert forall|i: int, j: int| 0 <= i < j < pre.len() implies lex_le(#[trigger] pre[i], #[trigger] pre[j]) by {
                    assert(pre[i] == ws[i] && pre[j] == ws[j]);
                }
            }
        }
        if ws.last() != ws[ws.len() - 2] {
            let r = d.push(ws.last());
            assert(d.last() == pre.last());
            if is_sorted(ws) {
                assert forall|i: int, j: int| 0 <= i < j < r.len() implies lex_le(#[trigger] r[i], #[trigger] r[j]) by {
                    if j == r.len() - 1 {
                        let w = choose|w: int| 0 <= w < pre.len() && pre[w] == d[i];
                        assert(lex_le(ws[w], ws[ws.len() - 1]));
                    } else {
                        assert(r[i] == d[i] && r[j] == d[j]);
                    }
                }
            }
            assert forall|i: int| 0 <= i < r.len() implies ws.contains(#[trigger] r[i]) by {
                if i == r.len() - 1 {
                    assert(ws[ws.len() - 1] == r[i]);
                } else {
                    assert(r[i] == d[i]);
                }
            }
            assert forall|i: int| 0 <= i < r.len() - 1 implies #[trigger] r[i] != r[i + 1] by {
                if i < r.len() - 2 {
                    assert(r[i] == d[i] && r[i + 1] == d[i + 1]);
                }
            }
        }
    } else if ws.len() == 1 {
        assert(ws.contains(ws[0]));
    }
}

/// A sorted list without equal neighbours has no word twice.
proof fn lemma_sorted_distinct(ws: Seq<Seq<char>>)
    requires
        is_sorted(ws),
        forall|i: int| 0 <= i < ws.len() - 1 ==> #[trigger] ws[i] != ws[i + 1],
    ensures
        all_distinct(ws),
{
    assert forall|i: int, j: int| 0 <= i < j < ws.len() implies #[trigger] ws[i] != #[trigger] ws[j] by {
        if ws[i] == ws[j] {
            assert(lex_le(ws[i], ws[i + 1]));
            assert(lex_le(ws[i + 1], ws[j]) || i + 1 == j);
            lemma_lex_antisymmetric(ws[i], ws[i + 1]);
        }
    }
}

/// Loads the files, keeps the words that meet every filter, rewrites them,
/// sorts them and drops repeats. Fails when no word is left.
pub fn prepare_wordlist(
    files: &Vec<String>,
    filters: &Vec<WordFilter>,
    transforms: &Vec<WordTransform>,
) -> (r: Result<Vec<String>, WordlistError>)
    ensures
        ({
            let ws = filtered_transformed(loaded(word_views(files@)), filters@, transforms@);
            &&& r is Err <==> ws.len() == 0
            &&& r matches Ok(v) ==> is_final_list(word_views(v@), ws)
            &&& r matches Ok(v) ==> is_sorted(word_views(v@)) && all_distinct(word_views(v@))
            &&& r matches Err(e) ==> e == WordlistError::Empty
        }),
{
    let loaded_words = load_words(files);
    let mut words = filter_transform(&loaded_words, filters, transforms);
    sort_words(&mut words);
    let ghost sorted = word_views(words@);
    let out = dedup_words(words);
    proof {
        lemma_dedup_empty(sorted);
        lemma_dedup_shape(sorted);
        lemma_sorted_distinct(dedup_adjacent(sorted));
    }
    if out.len() == 0 {
        return Err(WordlistError::Empty);
    }
    assert(dedup_adjacent(sorted) == word_views(out@));
    Ok(out)
}

/// The checksum of a final wordlist: the SHA-256 digest, in hex, of the
/// words joined by newlines.
pub fn wordlist_checksum(words: &Vec<String>) -> (r: String)
    ensures
        r@ == checksum_of(word_views(words@)),
{
    let mut all: Vec<char> = Vec::new();
    let mut i: usize = 0;
    while i < words.len()
        invariant
            i <= words.len(),
            all@ == joined(word_views(words@).take(i as int)),
        decreases words.len() - i,
    {
        let ghost wv = word_views(words@);
        if i > 0 {
            all.push('\n');
        }
        let w = chars_of(words[i].as_str());
        append_chars(&mut all, &w);
        proof {
            assert(wv.take(i + 1).drop_last() =~= wv.take(i as int));
            if i == 0 {
                assert(all@ =~= wv.take(1)[0]);
            } else {
                assert(all@ =~= joined(wv.take(i as int)) + seq!['\n'] + wv[i as int]);
            }
        }
        i += 1;
    }
    assert(word_views(words@).take(words.len() as int) =~= word_views(words@));
    let text = string_of(&all);
    sha256_hex(text.as_str())
}

/// The checksum depends on the final words alone: lists of equal words have
/// equal checksums, and words prepared from the same files by the same rules
/// are the same words.
pub proof fn lemma_checksum_deterministic(a: Seq<String>, b: Seq<String>)
    requires
        word_views(a) == word_views(b),
    ensures
        checksum_of(word_views(a)) == checksum_of(word_views(b)),
{
}

/// The number of chunks: the thread count, at least one and at most one per
/// word.
pub open spec fn chunk_count(threads: int, n: int) -> int {
    if threads < 1 {
        if n < 1 { n } else { 1 }
    } else if threads < n {
        threads
    } else {
        n
    }
}

/// Where chunk `i` of `t` over `n` words starts.
pub open spec fn chunk_start(n: int, t: int, i: int) -> int {
    i * (n / t)
}

/// Where chunk `i` of `t` over `n` words ends: the last chunk takes the rest.
pub open spec fn chunk_end(n: int, t: int, i: int) -> int {
    if i + 1 == t {
        n
    } else {
        (i + 1) * (n / t)
    }
}

/// Chunk bounds are in order and within the words.
pub proof fn lemma_chunk_bounds(n: int, t: int, i: int)
    requires
        0 < t <= n,
        0 <= i < t,
    ensures
        0 <= chunk_start(n, t, i) <= chunk_end(n, t, i) <= n,
        chunk_end(n, t, i) - chunk_start(n, t, i) >= 1,
        i + 1 < t ==> chunk_end(n, t, i) == chunk_start(n, t, i + 1),
{
    let q = n / t;
    assert(q >= 1) by (nonlinear_arith)
        requires
            0 < t <= n,
            q == n / t,
    ;
    assert(t * q <= n) by (nonlinear_arith)
        requires
            0 < t,
            q == n / t,
    ;
    assert(0 <= i * q) by (nonlinear_arith)
        requires
            0 <= i,
            q >= 1,
    ;
    assert(i * q + q <= n) by (nonlinear_arith)
        requires
            i + 1 <= t,
            t * q <= n,
            q >= 1,
    ;
    assert((i + 1) * q == i * q + q) by (nonlinear_arith);
}

/// Splits the words into `chunk_count(threads, n)` contiguous chunks, the
/// last one taking the words that do not divide evenly.
pub fn split_chunks(words: &Vec<String>, threads: usize) -> (r: Vec<Vec<String>>)
    requires
        words.len() > 0,
    ensures
        r.len() == chunk_count(threads as int, words.len() as int),
        forall|i: int|
            0 <= i < r.len() ==> word_views((#[trigger] r@[i])@) == word_views(words@).subrange(
                chunk_start(words.len() as int, r.len() as int, i),
                chunk_end(words.len() as int, r.len() as int, i),
            ),
{
    let n = words.len();
    let t: usize = if threads < 1 {
        1
    } else if threads < n {
        threads
    } else {
        n
    };
    let q = n / t;
    let mut out: Vec<Vec<String>> = Vec::new();
    let mut i: usize = 0;
    while i < t
        invariant
            0 < t <= n,
            n == words.len(),
            q == n / t,
            t == chunk_count(threads as int, n as int),
            i <= t,
            out.len() == i,
            forall|m: int|
                0 <= m < i ==> word_views((#[trigger] out@[m])@) == word_views(words@).subrange(
                    chunk_start(n as int, t as int, m),
                    chunk_end(n as int, t as int, m),
                ),
        decreases t - i,
    {
        proof {
            lemma_chunk_bounds(n as int, t as int, i as int);
        }
        assert((i + 1) * q == i * q + q) by (nonlinear_arith);
        let lo = i * q;
        let hi = if i + 1 == t {
            n
        } else {
            lo + q
        };
        let mut chunk: Vec<String> = Vec::new();
        let mut k = lo;
        while k < hi
            invariant
                lo <= k <= hi <= n,
                n == words.len(),
                word_views(chunk@) == word_views(words@).subrange(lo as int, k as int),
            decreases hi - k,
        {
            let ghost prev = chunk@;
            let w = words[k].clone();
            chunk.push(w);
            assert(word_views(chunk@) =~= word_views(prev).push(words@[k as int]@));
            assert(word_views(chunk@) =~= word_views(words@).subrange(lo as int, k + 1));
            k += 1;
        }
        out.push(chunk);
        i += 1;
    }
    out
}

} // verus!
