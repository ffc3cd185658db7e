//! Built-in applications: word count, a first-occurrence indexer, a
//! per-file counter, and the pure computation of a chaos-testing
//! application. Each is a pair of pure functions behind the `App`
//! interface; what each returns is pinned exactly, so a retried
//! attempt reproduces the original attempt's records.
use vstd::prelude::*;
use crate::App;
use crate::text::{dec_digits, join_sep, join_strings, lemma_seq_le_total, lemma_seq_le_trans,
    seq_le, str_le, u64_to_string};
use crate::trusted::{is_word_char, is_word_char_exec};

verus! {

/// The end of the alphabetic run starting at `i`: the first position
/// at or after `i` holding no word character, or the text's end.
pub open spec fn word_end(s: Seq<char>, i: int) -> int
    decreases s.len() - i,
{
    if i < 0 || i >= s.len() || !is_word_char(s[i]) {
        i
    } else {
        word_end(s, i + 1)
    }
}

/// `word_end` stays in range and moves right over word characters.
pub proof fn lemma_word_end(s: Seq<char>, i: int)
    requires
        0 <= i <= s.len(),
    ensures
        i <= word_end(s, i) <= s.len(),
        i < s.len() && is_word_char(s[i]) ==> word_end(s, i) > i,
    decreases s.len() - i,
{
    if i < s.len() && is_word_char(s[i]) {
        lemma_word_end(s, i + 1);
    }
}

/// The words of the text from position `i` on: the maximal runs of
/// word characters, in order.
pub open spec fn words_from(s: Seq<char>, i: int) -> Seq<Seq<char>>
    decreases s.len() - i,
    via words_from_decreases
{
    if i < 0 || i >= s.len() {
        Seq::empty()
    } else if !is_word_char(s[i]) {
        words_from(s, i + 1)
    } else {
        seq![s.subrange(i, word_end(s, i))] + words_from(s, word_end(s, i))
    }
}

#[via_fn]
proof fn words_from_decreases(s: Seq<char>, i: int) {
    if 0 <= i < s.len() {
        lemma_word_end(s, i);
    }
}

/// The words of a text: its maximal runs of word characters.
pub open spec fn words_of(s: Seq<char>) -> Seq<Seq<char>> {
    words_from(s, 0)
}

/// Splits a text into its words — the maximal alphabetic runs — in
/// order of occurrence.
pub fn split_words(s: &str) -> (r: Vec<String>)
    ensures
        r.deep_view() == words_of(s@),
{
    let n = s.unicode_len();
    let mut r: Vec<String> = Vec::new();
    let mut pos: usize = 0;
    proof {
        assert(r.deep_view() =~= Seq::<Seq<char>>::empty());
        assert(r.deep_view() + words_from(s@, 0) =~= words_from(s@, 0));
    }
    while pos < n
        invariant
            pos <= n,
            n == s@.len(),
            words_of(s@) == r.deep_view() + words_from(s@, pos as int),
        decreases n - pos,
    {
        let c = s.get_char(pos);
        if !is_word_char_exec(c) {
            proof {
                assert(words_from(s@, pos as int) == words_from(s@, pos as int + 1));
            }
            pos += 1;
        } else {
            let ghost start = pos as int;
            let mut e: usize = pos;
            proof {
                lemma_word_end(s@, start);
            }
            while e < n && is_word_char_exec(s.get_char(e))
                invariant
                    pos <= e <= n,
                    n == s@.len(),
                    word_end(s@, start) == word_end(s@, e as int),
                decreases n - e,
            {
                proof {
                    assert(word_end(s@, e as int) == word_end(s@, e as int + 1));
                }
                e += 1;
            }
            proof {
                assert(word_end(s@, e as int) == e as int);
                assert(word_end(s@, start) == e as int);
            }
            let word = s.substring_char(pos, e).to_owned();
            let ghost before = r.deep_view();
            r.push(word);
            proof {
                assert(r.deep_view() =~= before.push(s@.subrange(start, e as int)));
                assert(words_from(s@, start) == seq![s@.subrange(start, e as int)] + words_from(
                    s@,
                    e as int,
                ));
                assert(r.deep_view() + words_from(s@, e as int) =~= before + words_from(s@, start));
            }
            pos = e;
        }
    }
    proof {
        assert(words_from(s@, n as int) =~= Seq::<Seq<char>>::empty());
        assert(r.deep_view() + Seq::<Seq<char>>::empty() =~= r.deep_view());
    }
    r
}

/// The word-count records of a text: each word paired with `"1"`.
pub open spec fn wc_pairs(s: Seq<char>) -> Seq<(Seq<char>, Seq<char>)> {
    Seq::new(words_of(s).len(), |i: int| (words_of(s)[i], "1"@))
}

/// Word count, map side: one `(word, "1")` record per word occurrence.
pub fn wc_map(contents: &str) -> (r: Vec<(String, String)>)
    ensures
        crate::kv::pair_views(r@) == wc_pairs(contents@),
{
    let words = split_words(contents);
    let mut r: Vec<(String, String)> = Vec::new();
    let mut i: usize = 0;
    while i < words.len()
        invariant
            i <= words@.len(),
            words.deep_view() == words_of(contents@),
            words.deep_view().len() == words@.len(),
            crate::kv::pair_views(r@).len() == i,
            forall|k: int|
                0 <= k < i ==> crate::kv::pair_views(r@)[k] == (words_of(contents@)[k], "1"@),
        decreases words@.len() - i,
    {
        let one = String::from_str("1");
        let ghost before = crate::kv::pair_views(r@);
        r.push((words[i].clone(), one));
        proof {
            assert(crate::kv::pair_views(r@) =~= before.push((words_of(contents@)[i as int], "1"@)));
        }
        i += 1;
    }
    proof {
        assert(crate::kv::pair_views(r@) =~= wc_pairs(contents@));
    }
    r
}

/// Word count, reduce side: the number of collected values, in
/// decimal.
pub fn wc_reduce(counts: &Vec<String>) -> (r: String)
    ensures
        r@ == dec_digits(counts@.len() as int),
{
    u64_to_string(counts.len() as u64)
}

/// The word-count application: `map` emits `(word, "1")` per word of
/// the document, `reduce` counts the occurrences of a word.
#[derive(Debug, Default)]
pub struct WcApp;

impl App for WcApp {
    fn map(&self, _k: String, v: String) -> Vec<(String, String)> {
        wc_map(v.as_str())
    }

    fn reduce(&self, _k: String, vs: Vec<String>) -> String {
        wc_reduce(&vs)
    }
}

/// The words with later repetitions dropped, first occurrences kept in
/// order, accumulated left to right.
pub open spec fn dedup_fold(acc: Seq<Seq<char>>, ws: Seq<Seq<char>>) -> Seq<Seq<char>>
    decreases ws.len(),
{
    if ws.len() == 0 {
        acc
    } else {
        let acc2 = if acc.contains(ws[0]) {
            acc
        } else {
            acc.push(ws[0])
        };
        dedup_fold(acc2, ws.drop_first())
    }
}

/// The distinct words of a text, in order of first occurrence.
pub open spec fn distinct_words(s: Seq<char>) -> Seq<Seq<char>> {
    dedup_fold(Seq::empty(), words_of(s))
}

/// Whether the vector holds a string reading `x`.
fn contains_string(v: &Vec<String>, x: &String) -> (r: bool)
    ensures
        r == v.deep_view().contains(x@),
{
    let mut i: usize = 0;
    while i < v.len()
        invariant
            i <= v@.len(),
            v.deep_view().len() == v@.len(),
            forall|j: int| 0 <= j < i ==> v.deep_view()[j] != x@,
        decreases v@.len() - i,
    {
        if v[i] == *x {
            proof {
                assert(v.deep_view()[i as int] == x@);
            }
            return true;
        }
        i += 1;
    }
    proof {
        assert(!v.deep_view().contains(x@));
    }
    false
}

/// Indexer, map side: each distinct word of the document, paired with
/// the document's name, first occurrences in order.
pub fn indexer_map(filename: &String, contents: &str) -> (r: Vec<(String, String)>)
    ensures
        crate::kv::pair_views(r@) == Seq::new(
            distinct_words(contents@).len(),
            |i: int| (distinct_words(contents@)[i], filename@),
        ),
{
    let words = split_words(contents);
    let ghost all = words.deep_view();
    let mut seen: Vec<String> = Vec::new();
    let mut r: Vec<(String, String)> = Vec::new();
    let mut i: usize = 0;
    proof {
        assert(seen.deep_view() =~= Seq::<Seq<char>>::empty());
        assert(all.skip(0) =~= all);
    }
    while i < words.len()
        invariant
            i <= words@.len(),
            all == words.deep_view(),
            all.len() == words@.len(),
            dedup_fold(seen.deep_view(), all.skip(i as int)) == distinct_words(contents@),
            crate::kv::pair_views(r@).len() == seen.deep_view().len(),
            forall|k: int|
                0 <= k < seen.deep_view().len() ==> crate::kv::pair_views(r@)[k] == (
                seen.deep_view()[k],
                filename@,
                ),
        decreases words@.len() - i,
    {
        let ghost rest = all.skip(i as int);
        proof {
            assert(rest[0] == all[i as int]);
            assert(rest.drop_first() =~= all.skip(i as int + 1));
        }
        if !contains_string(&seen, &words[i]) {
            let ghost seen_before = seen.deep_view();
            let ghost pairs_before = crate::kv::pair_views(r@);
            seen.push(words[i].clone());
            r.push((words[i].clone(), filename.clone()));
            proof {
                assert(seen.deep_view() =~= seen_before.push(all[i as int]));
                assert(crate::kv::pair_views(r@) =~= pairs_before.push((all[i as int], filename@)));
            }
        }
        i += 1;
    }
    proof {
        assert(all.skip(words@.len() as int) =~= Seq::<Seq<char>>::empty());
        let d = distinct_words(contents@);
        assert(seen.deep_view() == d);
        assert(crate::kv::pair_views(r@) =~= Seq::new(d.len(), |k: int| (d[k], filename@)));
    }
    r
}

/// Indexer, reduce side: the number of documents holding the word,
/// then the document names joined with commas.
pub fn indexer_reduce(filenames: &Vec<String>) -> (r: String)
    ensures
        r@ == dec_digits(filenames@.len() as int) + seq![' '] + join_sep(
            filenames.deep_view(),
            ","@,
        ),
{
    let mut r = u64_to_string(filenames.len() as u64);
    r.append(" ");
    let joined = join_strings(filenames, ",");
    r.append(joined.as_str());
    proof {
        reveal_strlit(" ");
        assert(" "@ =~= seq![' ']);
        assert(r@ =~= dec_digits(filenames@.len() as int) + seq![' '] + join_sep(
            filenames.deep_view(),
            ","@,
        ));
    }
    r
}

/// The indexer application: `map` emits each distinct word of a
/// document once, `reduce` lists how many and which documents hold a
/// word.
#[derive(Debug, Default)]
pub struct IndexerApp;

impl App for IndexerApp {
    fn map(&self, k: String, v: String) -> Vec<(String, String)> {
        indexer_map(&k, v.as_str())
    }

    fn reduce(&self, _k: String, vs: Vec<String>) -> String {
        indexer_reduce(&vs)
    }
}

/// An application that marks each input document with a single
/// record, so a run counts documents per name: `map` emits
/// `(filename, "1")`, `reduce` counts the values.
#[derive(Debug, Default)]
pub struct EarlyExitApp;

impl App for EarlyExitApp {
    fn map(&self, k: String, _v: String) -> Vec<(String, String)> {
        let mut r: Vec<(String, String)> = Vec::new();
        r.push((k, String::from_str("1")));
        r
    }

    fn reduce(&self, _k: String, vs: Vec<String>) -> String {
        u64_to_string(vs.len() as u64)
    }
}

/// Sorts strings in the `seq_le` order: the same multiset, ordered.
pub fn sort_strings(v: Vec<String>) -> (r: Vec<String>)
    ensures
        r.deep_view().to_multiset() == v.deep_view().to_multiset(),
        forall|i: int, j: int|
            0 <= i < j < r.deep_view().len() ==> seq_le(r.deep_view()[i], r.deep_view()[j]),
{
    let ghost total = v.deep_view().to_multiset();
    let mut v = v;
    let mut r: Vec<String> = Vec::new();
    proof {
        assert(r.deep_view() =~= Seq::<Seq<char>>::empty());
        r.deep_view().to_multiset_ensures();
        assert(r.deep_view().to_multiset().add(v.deep_view().to_multiset()) =~= total);
    }
    while v.len() > 0
        invariant
            v.deep_view().len() == v@.len(),
            r.deep_view().len() == r@.len(),
            forall|i: int, j: int|
                0 <= i < j < r.deep_view().len() ==> seq_le(r.deep_view()[i], r.deep_view()[j]),
            r.deep_view().to_multiset().add(v.deep_view().to_multiset()) == total,
            forall|i: int, j: int|
                0 <= i < r.deep_view().len() && 0 <= j < v.deep_view().len() ==> seq_le(
                    r.deep_view()[i],
                    v.deep_view()[j],
                ),
        decreases v@.len(),
    {
        let mut min: usize = 0;
        let mut k: usize = 1;
        proof {
            lemma_seq_le_total(v.deep_view()[0], v.deep_view()[0]);
        }
        while k < v.len()
            invariant
                min < v@.len(),
                k <= v@.len(),
                v@.len() > 0,
                v.deep_view().len() == v@.len(),
                forall|t: int| 0 <= t < k ==> seq_le(v.deep_view()[min as int], v.deep_view()[t]),
            decreases v@.len() - k,
        {
            proof {
                lemma_seq_le_total(v.deep_view()[k as int], v.deep_view()[min as int]);
            }
            if str_le(v[k].as_str(), v[min].as_str()) {
                proof {
                    assert forall|t: int|
                        0 <= t < k + 1 implies seq_le(v.deep_view()[k as int], v.deep_view()[t]) by {
                        if t == k {
                            lemma_seq_le_total(v.deep_view()[k as int], v.deep_view()[k as int]);
                        } else if t < k {
                            lemma_seq_le_trans(
                                v.deep_view()[k as int],
                                v.deep_view()[min as int],
                                v.deep_view()[t],
                            );
                        }
                    }
                }
                min = k;
            }
            k += 1;
        }
        let ghost vs_before = v.deep_view();
        let ghost rs_before = r.deep_view();
        let p = v.remove(min);
        let ghost pv = p@;
        r.push(p);
        proof {
            assert(v.deep_view() =~= vs_before.remove(min as int));
            assert(r.deep_view() =~= rs_before.push(pv));
            vs_before.to_multiset_ensures();
            rs_before.to_multiset_ensures();
            assert(vs_before[min as int] == pv);
            assert(v.deep_view().to_multiset() =~= vs_before.to_multiset().remove(pv));
            assert(r.deep_view().to_multiset() =~= rs_before.to_multiset().insert(pv));
            assert(r.deep_view().to_multiset().add(v.deep_view().to_multiset())
                =~= rs_before.to_multiset().add(vs_before.to_multiset()));
            assert forall|i: int, j: int|
                0 <= i < j < r.deep_view().len() implies seq_le(
                r.deep_view()[i],
                r.deep_view()[j],
            ) by {
                if j < r.deep_view().len() - 1 {
                    assert(r.deep_view()[i] == rs_before[i]);
                    assert(r.deep_view()[j] == rs_before[j]);
                } else {
                    assert(r.deep_view()[j] == pv);
                }
            }
            assert forall|i: int, j: int|
                0 <= i < r.deep_view().len() && 0 <= j < v.deep_view().len() implies seq_le(
                r.deep_view()[i],
                v.deep_view()[j],
            ) by {
                let j2: int = if j < min { j } else { j + 1 };
                assert(v.deep_view()[j] == vs_before[j2]);
                if i < r.deep_view().len() - 1 {
                    assert(r.deep_view()[i] == rs_before[i]);
                } else {
                    assert(r.deep_view()[i] == pv);
                    assert(seq_le(pv, vs_before[j2]));
                }
            }
        }
    }
    proof {
        v.deep_view().to_multiset_ensures();
        assert(v.deep_view() =~= Seq::<Seq<char>>::empty());
        assert(v.deep_view().to_multiset().len() == 0);
        assert(r.deep_view().to_multiset() =~= total);
    }
    r
}

/// Chaos-test application, map side: four fixed records describing
/// the document — its name, the length of its name, the length of its
/// contents, and a marker.
pub fn crash_map(filename: String, contents: &str) -> (r: Vec<(String, String)>)
    ensures
        crate::kv::pair_views(r@) =~= seq![
            ("a"@, filename@),
            ("b"@, dec_digits(filename@.len() as int)),
            ("c"@, dec_digits(contents@.len() as int)),
            ("d"@, "xyzzy"@),
        ],
{
    let name_len = u64_to_string(filename.as_str().unicode_len() as u64);
    let contents_len = u64_to_string(contents.unicode_len() as u64);
    let mut r: Vec<(String, String)> = Vec::new();
    r.push((String::from_str("a"), filename));
    r.push((String::from_str("b"), name_len));
    r.push((String::from_str("c"), contents_len));
    r.push((String::from_str("d"), String::from_str("xyzzy")));
    r
}

/// Chaos-test application, reduce side: the values sorted, joined with
/// single spaces.
pub fn crash_reduce(values: Vec<String>) -> (r: String)
    ensures
        exists|sorted: Seq<Seq<char>>|
            {
                &&& sorted.to_multiset() == values.deep_view().to_multiset()
                &&& (forall|i: int, j: int|
                    0 <= i < j < sorted.len() ==> seq_le(sorted[i], sorted[j]))
                &&& r@ == join_sep(sorted, seq![' '])
            },
{
    let sorted = sort_strings(values);
    let r = join_strings(&sorted, " ");
    proof {
        reveal_strlit(" ");
        assert(" "@ =~= seq![' ']);
        assert(r@ == join_sep(sorted.deep_view(), seq![' ']));
    }
    r
}

/// The deterministic part of the chaos-test application; the crashing
/// and stalling behaviour around it belongs to the process that loads
/// it.
#[derive(Debug, Default)]
pub struct CrashApp;

impl App for CrashApp {
    fn map(&self, k: String, v: String) -> Vec<(String, String)> {
        crash_map(k, v.as_str())
    }

    fn reduce(&self, _k: String, vs: Vec<String>) -> String {
        crash_reduce(vs)
    }
}

} // verus!
