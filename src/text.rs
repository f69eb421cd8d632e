//! Character-level text operations on URL templates and wordlist files.
use vstd::prelude::*;

verus! {

/// `k` occurs in `s` starting at position `i`.
pub open spec fn occurs_at(s: Seq<char>, k: Seq<char>, i: int) -> bool {
    0 <= i && i + k.len() <= s.len() && s.subrange(i, i + k.len()) == k
}

/// The pieces of `s` around the leftmost non-overlapping occurrences of `k`,
/// scanning from the left. An empty `k` marks nothing: `s` is then one piece.
pub open spec fn segments(s: Seq<char>, k: Seq<char>) -> Seq<Seq<char>>
    decreases s.len(),
{
    if s.len() == 0 {
        seq![Seq::<char>::empty()]
    } else if k.len() > 0 && occurs_at(s, k, 0) {
        seq![Seq::<char>::empty()] + segments(s.skip(k.len() as int), k)
    } else {
        let rest = segments(s.skip(1), k);
        rest.update(0, seq![s[0]] + rest[0])
    }
}

/// The number of occurrences of `k` in `s` that a left-to-right scan finds.
pub open spec fn occurrences(s: Seq<char>, k: Seq<char>) -> nat {
    (segments(s, k).len() - 1) as nat
}

/// `segs[0] + fills[0] + segs[1] + fills[1] + ... + segs[last]`.
pub open spec fn interleave(segs: Seq<Seq<char>>, fills: Seq<Seq<char>>) -> Seq<char>
    decreases segs.len(),
{
    if segs.len() == 0 {
        Seq::<char>::empty()
    } else if segs.len() == 1 {
        segs[0]
    } else {
        segs[0] + fills[0] + interleave(segs.drop_first(), fills.drop_first())
    }
}

/// The views of a sequence of character vectors.
pub open spec fn views(v: Seq<Vec<char>>) -> Seq<Seq<char>> {
    v.map_values(|x: Vec<char>| x@)
}

/// `done`, then `cur` glued to the first of `rest`, then the others of `rest`.
spec fn glue(done: Seq<Seq<char>>, cur: Seq<char>, rest: Seq<Seq<char>>) -> Seq<Seq<char>> {
    done + seq![cur + rest[0]] + rest.drop_first()
}

/// There is always at least one piece.
pub proof fn lemma_segments_nonempty(s: Seq<char>, k: Seq<char>)
    ensures
        segments(s, k).len() >= 1,
    decreases s.len(),
{
    if s.len() == 0 {
    } else if k.len() > 0 && occurs_at(s, k, 0) {
        lemma_segments_nonempty(s.skip(k.len() as int), k);
    } else {
        lemma_segments_nonempty(s.skip(1), k);
    }
}

/// Relies on str::chars: the characters of `s`, in order.
#[verifier::external_body]
pub(crate) fn chars_of(s: &str) -> (r: Vec<char>)
    ensures
        r@ == s@,
{
    s.chars().collect()
}

/// Relies on String's FromIterator<char>: the string of these characters.
#[verifier::external_body]
pub(crate) fn string_of(v: &Vec<char>) -> (r: String)
    ensures
        r@ == v@,
{
    v.iter().collect()
}

/// Whether `k` occurs in `s` at position `i`.
pub fn occurs_at_exec(s: &Vec<char>, k: &Vec<char>, i: usize) -> (r: bool)
    requires
        i <= s.len(),
    ensures
        r == occurs_at(s@, k@, i as int),
{
    if k.len() > s.len() - i {
        return false;
    }
    let mut j: usize = 0;
    while j < k.len()
        invariant
            j <= k.len(),
            i + k.len() <= s.len(),
            forall|m: int| 0 <= m < j ==> s@[i + m] == k@[m],
        decreases k.len() - j,
    {
        if s[i + j] != k[j] {
            assert(s@.subrange(i as int, i + k.len())[j as int] == s@[i + j]);
            return false;
        }
        j += 1;
    }
    assert(s@.subrange(i as int, i + k.len()) =~= k@);
    true
}

/// Splits `s` around the occurrences of `k` (see `segments`).
pub fn split_on(s: &Vec<char>, k: &Vec<char>) -> (r: Vec<Vec<char>>)
    ensures
        views(r@) == segments(s@, k@),
{
    let mut done: Vec<Vec<char>> = Vec::new();
    let mut cur: Vec<char> = Vec::new();
    let mut i: usize = 0;
    proof {
        lemma_segments_nonempty(s@, k@);
        assert(s@.skip(0) =~= s@);
        assert(glue(views(done@), cur@, segments(s@, k@)) =~= segments(s@, k@));
    }
    while i < s.len()
        invariant
            i <= s.len(),
            segments(s@, k@) == glue(views(done@), cur@, segments(s@.skip(i as int), k@)),
        decreases s.len() - i,
    {
        let ghost rest = s@.skip(i as int);
        if k.len() > 0 && occurs_at_exec(s, k, i) {
            let ghost after = s@.skip(i + k.len());
            proof {
                assert(rest.subrange(0, k.len() as int) =~= s@.subrange(i as int, i + k.len()));
                assert(rest.skip(k.len() as int) =~= after);
                lemma_segments_nonempty(after, k@);
                assert(segments(rest, k@) == seq![Seq::<char>::empty()] + segments(after, k@));
            }
            let ghost old_done = views(done@);
            let ghost old_cur = cur@;
            done.push(cur);
            cur = Vec::new();
            i = i + k.len();
            proof {
                assert(views(done@) =~= old_done.push(old_cur));
                assert(glue(views(done@), cur@, segments(after, k@)) =~= glue(
                    old_done,
                    old_cur,
                    segments(rest, k@),
                ));
            }
        } else {
            let ghost after = s@.skip(i + 1);
            proof {
                if k.len() > 0 && i + k.len() <= s.len() {
                    assert(rest.subrange(0, k.len() as int) =~= s@.subrange(
                        i as int,
                        i + k.len(),
                    ));
                }
                assert(rest.skip(1) =~= after);
                lemma_segments_nonempty(after, k@);
            }
            let ghost old_cur = cur@;
            let c = s[i];
            cur.push(c);
            i = i + 1;
            proof {
                let ra = segments(after, k@);
                assert(rest[0] == c);
                assert(!(k@.len() > 0 && occurs_at(rest, k@, 0)));
                assert(segments(rest, k@) == ra.update(0, seq![c] + ra[0]));
                assert(ra.update(0, seq![c] + ra[0]).drop_first() =~= ra.drop_first());
                assert(old_cur + (seq![c] + ra[0]) =~= cur@ + ra[0]);
                assert(glue(views(done@), cur@, ra) =~= glue(
                    views(done@),
                    old_cur,
                    segments(rest, k@),
                ));
            }
        }
    }
    proof {
        assert(s@.skip(i as int) =~= Seq::<char>::empty());
    }
    let ghost old_done = views(done@);
    let ghost old_cur = cur@;
    done.push(cur);
    proof {
        assert(views(done@) =~= glue(old_done, old_cur, seq![Seq::<char>::empty()]));
    }
    done
}

/// Puts `fills[i]` between `segs[i]` and `segs[i + 1]` (see `interleave`).
pub fn interleave_exec(segs: &Vec<Vec<char>>, fills: &Vec<Vec<char>>) -> (r: Vec<char>)
    requires
        segs.len() <= fills.len() + 1,
    ensures
        r@ == interleave(views(segs@), views(fills@)),
{
    let mut out: Vec<char> = Vec::new();
    let n = segs.len();
    let mut i: usize = 0;
    proof {
        assert(views(segs@).skip(0) =~= views(segs@));
        assert(views(fills@).skip(0) =~= views(fills@));
        assert(out@ + interleave(views(segs@), views(fills@)) =~= interleave(views(segs@), views(fills@)));
    }
    while i < n
        invariant
            i <= n,
            n == segs.len(),
            segs.len() <= fills.len() + 1,
            out@ + interleave(views(segs@).skip(i as int), views(fills@).skip(i as int))
                == interleave(views(segs@), views(fills@)),
        decreases n - i,
    {
        let ghost before = out@;
        let ghost ss = views(segs@).skip(i as int);
        let ghost fs = views(fills@).skip(i as int);
        append_chars(&mut out, &segs[i]);
        if i + 1 < n {
            append_chars(&mut out, &fills[i]);
        }
        proof {
            assert(ss.drop_first() =~= views(segs@).skip(i + 1));
            if i + 1 < n {
                assert(fs.drop_first() =~= views(fills@).skip(i + 1));
                assert(out@ + interleave(ss.drop_first(), fs.drop_first()) =~= before
                    + interleave(ss, fs));
            } else {
                assert(views(segs@).skip(i + 1) =~= Seq::<Seq<char>>::empty());
                assert(out@ + interleave(views(segs@).skip(i + 1), views(fills@).skip(i + 1))
                    =~= before + interleave(ss, fs));
            }
        }
        i = i + 1;
    }
    proof {
        assert(views(segs@).skip(n as int) =~= Seq::<Seq<char>>::empty());
        assert(out@ + Seq::<char>::empty() =~= out@);
    }
    out
}

/// Appends the characters of `src` to `dst`.
pub fn append_chars(dst: &mut Vec<char>, src: &Vec<char>)
    ensures
        final(dst)@ == old(dst)@ + src@,
{
    let mut j: usize = 0;
    while j < src.len()
        invariant
            j <= src.len(),
            dst@ == old(dst)@ + src@.subrange(0, j as int),
        decreases src.len() - j,
    {
        dst.push(src[j]);
        j += 1;
        assert(dst@ =~= old(dst)@ + src@.subrange(0, j as int));
    }
    assert(src@.subrange(0, src.len() as int) =~= src@);
}

} // verus!
