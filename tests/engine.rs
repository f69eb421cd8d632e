use rwalk::classic::{
    discovery, generate_urls, permutation_count, relative_path, throttle_pause_us, Classic,
    Outcome, RecordError, RunOptions,
};
use rwalk::recursive::{join_url, Recursive, ResumeError};
use rwalk::tree::{Addition, Tree, TreeData, TreeError};
use rwalk::wordlist::{
    load_words, prepare_wordlist, split_chunks, wordlist_checksum, WordFilter, WordTransform,
    WordlistError,
};

fn s(x: &str) -> String {
    x.to_string()
}

fn strings(xs: &[&str]) -> Vec<String> {
    xs.iter().map(|x| x.to_string()).collect()
}

fn opts(depth: usize, hit: bool) -> RunOptions {
    RunOptions {
        fuzz_key: s("FUZZ"),
        permutations: false,
        hit_connection_errors: hit,
        throttle: 0,
        depth,
    }
}

fn root_data(url: &str) -> TreeData {
    TreeData { url: s(url), depth: 0, path: s("/"), status_code: 0, extra: Vec::new() }
}

fn rooted(url: &str) -> Tree {
    let mut t = Tree::new();
    t.insert(root_data(url), None).unwrap();
    t
}

fn ok(status: u16) -> Outcome {
    Outcome::Response { status_code: status, passed: true, additions: Vec::new() }
}

fn filtered_out() -> Outcome {
    Outcome::Response { status_code: 404, passed: false, additions: Vec::new() }
}

/// Drives every (node, chunk) pair of the current depth to the end of its
/// chunk, answering each URL with `answer`; returns the URLs asked for.
fn run_depth(r: &mut Recursive, answer: &dyn Fn(&str) -> Outcome) -> Vec<String> {
    let mut asked = Vec::new();
    let nodes = r.begin_depth();
    for k in nodes {
        for i in 0..r.chunk_total() {
            while let Some(url) = r.next_url(k, i) {
                asked.push(url.clone());
                r.complete(k, i, answer(&url));
            }
        }
    }
    asked
}

#[test]
fn basic_classic_fuzz() {
    let words = prepare_wordlist(&strings(&["a\nb\nb\nc"]), &Vec::new(), &Vec::new()).unwrap();
    assert_eq!(words, strings(&["a", "b", "c"]));
    let urls = generate_urls(&s("http://h/FUZZ"), &s("FUZZ"), &words, false);
    assert_eq!(urls, strings(&["http://h/a", "http://h/b", "http://h/c"]));
    let mut c = Classic::new(s("http://h/FUZZ"), opts(0, false), rooted("http://h"), words, 10);
    assert_eq!(c.generate_urls().len(), 3);
    for u in &urls {
        assert_eq!(c.record(u, ok(200)), Ok(true));
    }
    let t = c.tree();
    assert_eq!(t.len(), 4);
    assert_eq!(t.children(0), &vec![1, 2, 3]);
    for (i, p) in ["a", "b", "c"].iter().enumerate() {
        assert_eq!(t.data(i + 1).depth, 0);
        assert_eq!(t.data(i + 1).path, *p);
        assert_eq!(t.data(i + 1).status_code, 200);
    }
    assert_eq!(t.get_nodes_at_depth(0), vec![0, 1, 2, 3]);
}

#[test]
fn recursive_depth_two_small_wordlist() {
    let tree = rooted("http://h/");
    let mut r = Recursive::new(opts(2, false), tree, strings(&["x", "y"]), 10);
    let answer = |u: &str| if u == "http://h/x" || u == "http://h/x/y" { ok(200) } else { filtered_out() };
    while !r.is_done() {
        run_depth(&mut r, &answer);
        r.finish_depth();
    }
    let t = r.tree();
    assert_eq!(t.len(), 3);
    assert_eq!(t.data(1).path, "x");
    assert_eq!(t.data(1).depth, 1);
    assert_eq!(t.data(1).url, "http://h/x");
    assert_eq!(t.data(2).path, "y");
    assert_eq!(t.data(2).depth, 2);
    assert_eq!(t.data(2).url, "http://h/x/y");
    assert_eq!(t.children(1), &vec![2]);
    // every child is one level below its parent
    for p in 0..t.len() {
        for &c in t.children(p) {
            assert_eq!(t.data(c).depth, t.data(p).depth + 1);
        }
    }
}

#[test]
fn throttle_pauses_add_up() {
    // 2 requests per second: half a second per request that returns at once
    assert_eq!(throttle_pause_us(2, 0), 500_000);
    let total: u64 = (0..10).map(|_| throttle_pause_us(2, 0)).sum();
    assert!(total >= 5_000_000 - 500_000 && total <= 6_000_000);
    assert_eq!(throttle_pause_us(2, 200_000), 300_000);
    assert_eq!(throttle_pause_us(2, 700_000), 0);
    assert_eq!(throttle_pause_us(0, 0), 0);
}

fn ten_words() -> Vec<String> {
    strings(&["w0", "w1", "w2", "w3", "w4", "w5", "w6", "w7", "w8", "w9"])
}

fn aborted_after_three() -> (rwalk::recursive::SaveRecord, String) {
    let words = ten_words();
    let checksum = wordlist_checksum(&words);
    let mut r = Recursive::new(opts(1, false), rooted("http://h"), words, 1);
    let nodes = r.begin_depth();
    assert_eq!(nodes, vec![0]);
    for _ in 0..3 {
        assert!(r.next_url(0, 0).is_some());
        r.complete(0, 0, filtered_out());
    }
    assert_eq!(r.cursor_at(0, 0), 3);
    (r.into_save(checksum.clone()), checksum)
}

#[test]
fn resume_with_matching_checksum() {
    let (save, checksum) = aborted_after_three();
    let (mut r, kept) =
        Recursive::resume(save, opts(1, false), &s("http://h"), &checksum, ten_words(), 1).unwrap();
    assert!(kept);
    let asked = run_depth(&mut r, &|_| filtered_out());
    assert_eq!(asked.len(), 7);
    assert_eq!(asked[0], "http://h/w3");
    assert_eq!(r.cursor_at(0, 0), 10);
}

#[test]
fn resume_with_changed_wordlist() {
    let (save, _) = aborted_after_three();
    let mut changed = ten_words();
    changed[9] = s("other");
    let new_checksum = wordlist_checksum(&changed);
    let (mut r, kept) =
        Recursive::resume(save, opts(1, false), &s("http://h"), &new_checksum, changed, 1).unwrap();
    assert!(!kept);
    assert_eq!(r.tree().len(), 1);
    assert_eq!(r.depth(), 0);
    let asked = run_depth(&mut r, &|_| filtered_out());
    assert_eq!(asked.len(), 10);
}

#[test]
fn connect_errors_recorded() {
    let words = strings(&["a", "b", "c", "d", "e"]);
    let template = s("http://127.0.0.1:1/FUZZ");
    let urls = generate_urls(&template, &s("FUZZ"), &words, false);
    let mut c = Classic::new(template, opts(0, true), rooted("http://127.0.0.1:1"), words, 10);
    for u in &urls {
        assert_eq!(c.record(u, Outcome::ConnectError), Ok(true));
    }
    let t = c.tree();
    assert_eq!(t.children(0).len(), 5);
    for &k in t.children(0) {
        assert_eq!(t.data(k).status_code, 0);
        assert!(t.data(k).extra.is_empty());
    }
}

#[test]
fn connect_errors_dropped_without_option() {
    let mut c = Classic::new(s("http://h/FUZZ"), opts(0, false), rooted("http://h"), strings(&["a"]), 1);
    assert_eq!(c.record(&s("http://h/a"), Outcome::ConnectError), Ok(false));
    assert_eq!(c.record(&s("http://h/a"), Outcome::OtherError), Ok(false));
    assert_eq!(c.tree().len(), 1);
}

#[test]
fn recursive_connect_errors_recorded() {
    let mut r = Recursive::new(opts(1, true), rooted("http://h"), strings(&["a", "b", "c", "d", "e"]), 2);
    let asked = run_depth(&mut r, &|_| Outcome::ConnectError);
    assert_eq!(asked.len(), 5);
    assert_eq!(r.tree().len(), 6);
    assert!(r.tree().children(0).iter().all(|&k| r.tree().data(k).status_code == 0));
}

#[test]
fn one_placeholder_one_request_per_word() {
    let words = strings(&["a", "b", "c", "d"]);
    let urls = generate_urls(&s("http://h/FUZZ/FUZZ.php"), &s("FUZZ"), &words, false);
    assert_eq!(urls.len(), 4);
    assert_eq!(urls[1], "http://h/b/b.php");
}

#[test]
fn permutations_count_and_fill() {
    let words = strings(&["a", "b", "c"]);
    let urls = generate_urls(&s("http://h/FUZZ/FUZZ"), &s("FUZZ"), &words, true);
    assert_eq!(urls.len(), 6);
    for u in ["http://h/a/b", "http://h/a/c", "http://h/b/a", "http://h/b/c", "http://h/c/a", "http://h/c/b"] {
        assert!(urls.contains(&s(u)));
    }
    let urls = generate_urls(&s("http://h/FUZZ-FUZZ-FUZZ"), &s("FUZZ"), &strings(&["a", "b", "c", "d"]), true);
    assert_eq!(urls.len(), 24);
    let urls = generate_urls(&s("http://h/FUZZ/FUZZ/FUZZ"), &s("FUZZ"), &strings(&["a", "b"]), true);
    assert!(urls.is_empty());
    assert_eq!(permutation_count(5, 2), Some(20));
    assert_eq!(permutation_count(3, 4), Some(0));
    assert_eq!(permutation_count(usize::MAX, 2), None);
}

#[test]
fn template_without_placeholder_is_one_url() {
    let words = strings(&["a", "b"]);
    assert_eq!(generate_urls(&s("http://h/x"), &s("FUZZ"), &words, false), strings(&["http://h/x"]));
    assert_eq!(generate_urls(&s("http://h/x"), &s("FUZZ"), &words, true), strings(&["http://h/x"]));
}

#[test]
fn nodes_at_depth_in_preorder() {
    let mut t = rooted("http://h");
    let d = |url: &str, depth: usize| TreeData { url: s(url), depth, path: s(url), status_code: 200, extra: Vec::new() };
    assert_eq!(t.insert(d("a", 1), Some(0)), Ok(1));
    assert_eq!(t.insert(d("b", 1), Some(0)), Ok(2));
    assert_eq!(t.insert(d("b/d", 2), Some(2)), Ok(3));
    assert_eq!(t.insert(d("a/c", 2), Some(1)), Ok(4));
    assert_eq!(t.get_nodes_at_depth(1), vec![1, 2]);
    assert_eq!(t.get_nodes_at_depth(2), vec![4, 3]);
    assert_eq!(t.get_nodes_at_depth(2), t.get_nodes_at_depth(2));
    assert_eq!(t.get_nodes_at_depth(7), Vec::<usize>::new());
    assert!(t.is_wf());
    assert!(t.has_child_path(1, &s("a/c")));
    assert!(!t.has_child_path(2, &s("a/c")));
}

#[test]
fn tree_insert_errors() {
    let mut t = Tree::new();
    assert_eq!(t.root(), None);
    assert_eq!(t.insert(root_data("http://h"), Some(0)), Err(TreeError::UnknownParent));
    assert_eq!(t.insert(root_data("http://h"), None), Ok(0));
    assert_eq!(t.root(), Some(0));
    assert_eq!(t.insert(root_data("http://h"), None), Err(TreeError::RootExists));
    assert_eq!(t.insert(root_data("http://h"), Some(5)), Err(TreeError::UnknownParent));
    assert_eq!(t.len(), 1);
}

#[test]
fn duplicate_path_not_inserted_twice() {
    let mut r = Recursive::new(opts(1, false), rooted("http://h"), strings(&["a"]), 1);
    r.begin_depth();
    r.complete(0, 0, ok(200));
    assert_eq!(r.tree().len(), 2);
    // a second visit of the same node in a later crawl finds the child there
    let save = r.into_save(s("c"));
    let (mut r, kept) = Recursive::resume(save, opts(1, false), &s("http://h"), &s("other"), strings(&["a"]), 1).unwrap();
    assert!(!kept);
    r.begin_depth();
    assert!(!r.complete(0, 0, ok(200)));
    assert_eq!(r.tree().len(), 2);
    assert_eq!(r.cursor_at(0, 0), 1);
}

#[test]
fn cursor_sum_reaches_word_count() {
    let words = ten_words();
    let mut r = Recursive::new(opts(1, false), rooted("http://h"), words, 3);
    assert_eq!(r.chunk_total(), 3);
    run_depth(&mut r, &|_| filtered_out());
    let sum: usize = (0..3).map(|i| r.cursor_at(0, i)).sum();
    assert_eq!(sum, 10);
    assert_eq!(r.cursor_at(0, 2), 4);
}

#[test]
fn wordlist_pipeline_rules() {
    let files = strings(&["alpha\n\nbeta\r\nadmin\n", "zeta\nbeta\nab"]);
    let loaded = load_words(&files);
    assert_eq!(loaded, strings(&["alpha", "beta\r", "admin", "zeta", "beta", "ab"]));
    let filters = vec![WordFilter::MinLength(3), WordFilter::Excludes(s("\r"))];
    let transforms = vec![WordTransform::Prefix(s("/")), WordTransform::Replace(s("a"), s("4"))];
    let words = prepare_wordlist(&files, &filters, &transforms).unwrap();
    assert_eq!(words, strings(&["/4dmin", "/4lph4", "/bet4", "/zet4"]));
    let words = prepare_wordlist(&files, &vec![WordFilter::Contains(s("et"))], &vec![WordTransform::Suffix(s(".php"))]).unwrap();
    assert_eq!(words, strings(&["beta\r.php", "beta.php", "zeta.php"]));
    let words = prepare_wordlist(&files, &vec![WordFilter::MaxLength(2)], &Vec::new()).unwrap();
    assert_eq!(words, strings(&["ab"]));
}

#[test]
fn empty_wordlist_is_an_error() {
    assert_eq!(prepare_wordlist(&strings(&["\n\n"]), &Vec::new(), &Vec::new()), Err(WordlistError::Empty));
    assert_eq!(
        prepare_wordlist(&strings(&["abc"]), &vec![WordFilter::MinLength(4)], &Vec::new()),
        Err(WordlistError::Empty)
    );
}

#[test]
fn checksum_of_joined_words() {
    let c = wordlist_checksum(&strings(&["a", "b", "c"]));
    assert_eq!(c, "ea7fb08b7a2dc4619ffb7c7bb38d95a2047935fa165d71b12efd3852a2e6d0cc");
    assert_eq!(c, wordlist_checksum(&strings(&["a", "b", "c"])));
    assert_ne!(c, wordlist_checksum(&strings(&["a", "b", "d"])));
    assert_eq!(wordlist_checksum(&Vec::new()), "e3b0c44298fc1c149afbf4c8996fb92427ae41e4649b934ca495991b7852b855");
}

#[test]
fn chunks_keep_the_remainder() {
    let chunks = split_chunks(&ten_words(), 3);
    assert_eq!(chunks.iter().map(|c| c.len()).collect::<Vec<_>>(), vec![3, 3, 4]);
    assert_eq!(chunks[2], strings(&["w6", "w7", "w8", "w9"]));
    assert_eq!(split_chunks(&strings(&["a", "b"]), 10).len(), 2);
    assert_eq!(split_chunks(&strings(&["a", "b"]), 0).len(), 1);
}

#[test]
fn relative_paths_and_joins() {
    assert_eq!(relative_path(&s("http://h/a"), &s("http://h")), Some(s("a")));
    assert_eq!(relative_path(&s("http://h/x/a"), &s("http://h/x/")), Some(s("a")));
    assert_eq!(relative_path(&s("not a url"), &s("http://h")), None);
    assert_eq!(join_url(&s("http://h/"), &s("x")), "http://h/x");
    assert_eq!(join_url(&s("http://h"), &s("x")), "http://h/x");
}

#[test]
fn record_errors() {
    let mut c = Classic::new(s("http://h/FUZZ"), opts(0, false), Tree::new(), strings(&["a"]), 1);
    assert_eq!(c.record(&s("http://h/a"), ok(200)), Err(RecordError::NoRoot));
    let mut c = Classic::new(s("http://h/FUZZ"), opts(0, false), rooted("http://h"), strings(&["a"]), 1);
    assert_eq!(c.record(&s("nope"), ok(200)), Err(RecordError::BadUrl));
}

#[test]
fn additions_are_kept() {
    let add = vec![Addition { key: s("length"), value: s("12") }];
    let o = Outcome::Response { status_code: 301, passed: true, additions: add };
    let (status, extra) = discovery(o, false).unwrap();
    assert_eq!(status, 301);
    assert_eq!(extra[0].value, "12");
}

#[test]
fn resume_errors() {
    let save = Recursive::new(opts(1, false), rooted("http://h"), strings(&["a"]), 1).into_save(s("c"));
    let r = Recursive::resume(save, opts(1, false), &s("http://other"), &s("c"), strings(&["a"]), 1);
    assert_eq!(r.err(), Some(ResumeError::UrlMismatch));
    let save = Recursive::new(opts(1, false), Tree::new(), strings(&["a"]), 1).into_save(s("c"));
    let r = Recursive::resume(save, opts(1, false), &s("http://h"), &s("c"), strings(&["a"]), 1);
    assert_eq!(r.err(), Some(ResumeError::BadTree));
}
