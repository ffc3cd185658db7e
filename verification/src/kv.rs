//! Key/value records and the intermediate-file format.
//!
//! A record is written as `key value` followed by a newline; the key
//! must not contain the separating space or a newline. Reduce-side
//! processing parses such files back into records, sorts them, and
//! groups consecutive records with equal keys.
use vstd::prelude::*;
use crate::text::{lemma_seq_le_total, lemma_seq_le_trans, seq_le, str_le};

verus! {

/// A malformed record: a line with no separator between key and
/// value. Fatal to the reduce attempt that reads it.
#[derive(Clone, Copy, PartialEq, Eq, Structural, Debug)]
pub enum ParseError {
    MissingSeparator,
}

/// The views of a sequence of owned records.
pub open spec fn pair_views(s: Seq<(String, String)>) -> Seq<(Seq<char>, Seq<char>)> {
    s.map_values(|p: (String, String)| (p.0@, p.1@))
}

/// Order on records: by key, ties broken by value — the order the
/// reduce phase sorts by.
pub open spec fn pair_le(x: (Seq<char>, Seq<char>), y: (Seq<char>, Seq<char>)) -> bool {
    if seq_le(x.0, y.0) && seq_le(y.0, x.0) {
        seq_le(x.1, y.1)
    } else {
        seq_le(x.0, y.0)
    }
}

/// `pair_le` relates every two records one way or the other.
pub proof fn lemma_pair_le_total(x: (Seq<char>, Seq<char>), y: (Seq<char>, Seq<char>))
    ensures
        pair_le(x, y) || pair_le(y, x),
{
    lemma_seq_le_total(x.0, y.0);
    lemma_seq_le_total(x.1, y.1);
}

/// `pair_le` is transitive.
pub proof fn lemma_pair_le_trans(
    x: (Seq<char>, Seq<char>),
    y: (Seq<char>, Seq<char>),
    z: (Seq<char>, Seq<char>),
)
    requires
        pair_le(x, y),
        pair_le(y, z),
    ensures
        pair_le(x, z),
{
    lemma_seq_le_trans(x.0, y.0, z.0);
    if seq_le(z.0, x.0) {
        lemma_seq_le_trans(y.0, z.0, x.0);
        lemma_seq_le_trans(z.0, x.0, y.0);
        lemma_seq_le_trans(x.1, y.1, z.1);
    }
}

/// Whether the records are sorted in the `pair_le` order.
pub open spec fn sorted_pairs(s: Seq<(Seq<char>, Seq<char>)>) -> bool {
    forall|i: int, j: int| 0 <= i < j < s.len() ==> pair_le(s[i], s[j])
}

/// Compares two records in the `pair_le` order.
pub fn pair_le_exec(a: &(String, String), b: &(String, String)) -> (r: bool)
    ensures
        r == pair_le((a.0@, a.1@), (b.0@, b.1@)),
{
    let k_ab = str_le(a.0.as_str(), b.0.as_str());
    let k_ba = str_le(b.0.as_str(), a.0.as_str());
    if k_ab && k_ba {
        str_le(a.1.as_str(), b.1.as_str())
    } else {
        k_ab
    }
}

/// Sorts the records by key, ties broken by value: the result holds
/// the same records — the same multiset — in the `pair_le` order.
pub fn sort_pairs(v: Vec<(String, String)>) -> (r: Vec<(String, String)>)
    ensures
        sorted_pairs(pair_views(r@)),
        pair_views(r@).to_multiset() == pair_views(v@).to_multiset(),
{
    let ghost total = pair_views(v@).to_multiset();
    let mut v = v;
    let mut r: Vec<(String, String)> = Vec::new();
    proof {
        assert(pair_views(r@) =~= Seq::<(Seq<char>, Seq<char>)>::empty());
        pair_views(r@).to_multiset_ensures();
        assert(pair_views(r@).to_multiset().add(pair_views(v@).to_multiset()) =~= total);
    }
    while v.len() > 0
        invariant
            sorted_pairs(pair_views(r@)),
            pair_views(r@).to_multiset().add(pair_views(v@).to_multiset()) == total,
            forall|i: int, j: int|
                0 <= i < pair_views(r@).len() && 0 <= j < pair_views(v@).len() ==> pair_le(
                    pair_views(r@)[i],
                    pair_views(v@)[j],
                ),
        decreases v@.len(),
    {
        let mut min: usize = 0;
        let mut k: usize = 1;
        proof {
            lemma_pair_le_total(pair_views(v@)[0], pair_views(v@)[0]);
        }
        while k < v.len()
            invariant
                min < k <= v@.len() || (k <= v@.len() && min == 0),
                min < v@.len(),
                v@.len() > 0,
                forall|t: int|
                    0 <= t < k ==> pair_le(pair_views(v@)[min as int], pair_views(v@)[t]),
            decreases v@.len() - k,
        {
            proof {
                lemma_pair_le_total((v@[k as int].0@, v@[k as int].1@), (v@[min as int].0@, v@[min as int].1@));
            }
            if pair_le_exec(&v[k], &v[min]) {
                proof {
                    assert forall|t: int|
                        0 <= t < k + 1 implies pair_le(pair_views(v@)[k as int], pair_views(v@)[t]) by {
                        if t == k {
                            lemma_pair_le_total(pair_views(v@)[k as int], pair_views(v@)[k as int]);
                        } else if t < k {
                            lemma_pair_le_trans(
                                pair_views(v@)[k as int],
                                pair_views(v@)[min as int],
                                pair_views(v@)[t],
                            );
                        }
                    }
                }
                min = k;
            }
            k += 1;
        }
        let ghost vs_before = pair_views(v@);
        let ghost rs_before = pair_views(r@);
        let p = v.remove(min);
        let ghost pv = (p.0@, p.1@);
        r.push(p);
        proof {
            assert(pair_views(v@) =~= vs_before.remove(min as int));
            assert(pair_views(r@) =~= rs_before.push(pv));
            vs_before.to_multiset_ensures();
            rs_before.to_multiset_ensures();
            assert(vs_before[min as int] == pv);
            assert(pair_views(v@).to_multiset() =~= vs_before.to_multiset().remove(pv));
            assert(pair_views(r@).to_multiset() =~= rs_before.to_multiset().insert(pv));
            assert(pair_views(r@).to_multiset().add(pair_views(v@).to_multiset())
                =~= rs_before.to_multiset().add(vs_before.to_multiset()));
            assert forall|i: int, j: int|
                0 <= i < j < pair_views(r@).len() implies pair_le(
                pair_views(r@)[i],
                pair_views(r@)[j],
            ) by {
                if j < pair_views(r@).len() - 1 {
                    assert(pair_views(r@)[i] == rs_before[i]);
                    assert(pair_views(r@)[j] == rs_before[j]);
                } else {
                    assert(pair_views(r@)[j] == pv);
                }
            }
            assert forall|i: int, j: int|
                0 <= i < pair_views(r@).len() && 0 <= j < pair_views(v@).len() implies pair_le(
                pair_views(r@)[i],
                pair_views(v@)[j],
            ) by {
                let j2: int = if j < min { j } else { j + 1 };
                assert(pair_views(v@)[j] == vs_before[j2]);
                if i < pair_views(r@).len() - 1 {
                    assert(pair_views(r@)[i] == rs_before[i]);
                } else {
                    assert(pair_views(r@)[i] == pv);
                    assert(pair_le(pv, vs_before[j2]));
                }
            }
        }
    }
    proof {
        pair_views(v@).to_multiset_ensures();
        assert(pair_views(v@) =~= Seq::<(Seq<char>, Seq<char>)>::empty());
        assert(pair_views(v@).to_multiset().len() == 0);
        assert(pair_views(r@).to_multiset() =~= total);
    }
    r
}

/// The groups of consecutive equal-keyed records, in order: each group
/// is a key and the values that followed it, accumulated left to
/// right.
pub open spec fn group_fold(
    acc: Seq<(Seq<char>, Seq<Seq<char>>)>,
    s: Seq<(Seq<char>, Seq<char>)>,
) -> Seq<(Seq<char>, Seq<Seq<char>>)>
    decreases s.len(),
{
    if s.len() == 0 {
        acc
    } else {
        let k = s[0].0;
        let v = s[0].1;
        let acc2 = if acc.len() > 0 && acc.last().0 == k {
            acc.update(acc.len() - 1, (k, acc.last().1.push(v)))
        } else {
            acc.push((k, seq![v]))
        };
        group_fold(acc2, s.drop_first())
    }
}

/// The records grouped by consecutive equal keys.
pub open spec fn grouped(s: Seq<(Seq<char>, Seq<char>)>) -> Seq<(Seq<char>, Seq<Seq<char>>)> {
    group_fold(Seq::empty(), s)
}

/// The views of a sequence of owned groups.
pub open spec fn group_views(s: Seq<(String, Vec<String>)>) -> Seq<(Seq<char>, Seq<Seq<char>>)> {
    s.map_values(|g: (String, Vec<String>)| (g.0@, g.1.deep_view()))
}

/// Groups consecutive records with equal keys, preserving the order of
/// groups and of values within a group.
pub fn group_pairs(v: &Vec<(String, String)>) -> (r: Vec<(String, Vec<String>)>)
    ensures
        group_views(r@) == grouped(pair_views(v@)),
{
    let ghost all = pair_views(v@);
    let mut r: Vec<(String, Vec<String>)> = Vec::new();
    let mut i: usize = 0;
    proof {
        assert(group_views(r@) =~= Seq::<(Seq<char>, Seq<Seq<char>>)>::empty());
        assert(all.skip(0) =~= all);
    }
    while i < v.len()
        invariant
            i <= v@.len(),
            all == pair_views(v@),
            group_fold(group_views(r@), all.skip(i as int)) == grouped(all),
        decreases v@.len() - i,
    {
        let ghost acc = group_views(r@);
        let ghost rest = all.skip(i as int);
        proof {
            assert(rest[0] == all[i as int]);
            assert(rest.drop_first() =~= all.skip(i as int + 1));
        }
        let key_matches = if r.len() > 0 {
            let last_idx = r.len() - 1;
            r[last_idx].0 == v[i].0
        } else {
            false
        };
        if key_matches {
            let mut g = r.pop().unwrap();
            g.1.push(v[i].1.clone());
            r.push(g);
            proof {
                assert(group_views(r@) =~~= acc.update(
                    acc.len() - 1,
                    (all[i as int].0, acc.last().1.push(all[i as int].1)),
                ));
            }
        } else {
            let mut values: Vec<String> = Vec::new();
            values.push(v[i].1.clone());
            r.push((v[i].0.clone(), values));
            proof {
                assert(group_views(r@) =~~= acc.push((all[i as int].0, seq![all[i as int].1])));
            }
        }
        i += 1;
    }
    proof {
        assert(all.skip(v@.len() as int) =~= Seq::<(Seq<char>, Seq<char>)>::empty());
    }
    r
}

/// One record as a line: the key, one space, the value, a newline.
pub open spec fn encode_line_spec(k: Seq<char>, v: Seq<char>) -> Seq<char> {
    k + seq![' '] + v + seq!['\n']
}

/// The records encoded as consecutive lines.
pub open spec fn encode_lines_spec(ps: Seq<(Seq<char>, Seq<char>)>) -> Seq<char>
    decreases ps.len(),
{
    if ps.len() == 0 {
        Seq::empty()
    } else {
        encode_line_spec(ps[0].0, ps[0].1) + encode_lines_spec(ps.drop_first())
    }
}

/// Writes one record as a line.
pub fn encode_line(k: &str, v: &str) -> (r: String)
    ensures
        r@ == encode_line_spec(k@, v@),
{
    let mut r = String::new();
    r.append(k);
    r.append(" ");
    r.append(v);
    r.append("\n");
    proof {
        reveal_strlit(" ");
        reveal_strlit("\n");
        assert(" "@ =~= seq![' ']);
        assert("\n"@ =~= seq!['\n']);
        assert(r@ =~= encode_line_spec(k@, v@));
    }
    r
}

/// Writes the records as consecutive lines.
pub fn encode_lines(ps: &Vec<(String, String)>) -> (r: String)
    ensures
        r@ == encode_lines_spec(pair_views(ps@)),
{
    let ghost all = pair_views(ps@);
    let mut r = String::new();
    let mut i: usize = 0;
    proof {
        assert(all.skip(0) =~= all);
        assert(r@ =~= Seq::<char>::empty());
    }
    while i < ps.len()
        invariant
            i <= ps@.len(),
            all == pair_views(ps@),
            r@ + encode_lines_spec(all.skip(i as int)) == encode_lines_spec(all),
        decreases ps@.len() - i,
    {
        let ghost before = r@;
        let line = encode_line(ps[i].0.as_str(), ps[i].1.as_str());
        r.append(line.as_str());
        proof {
            let rest = all.skip(i as int);
            assert(rest[0] == all[i as int]);
            assert(rest.drop_first() =~= all.skip(i as int + 1));
            assert(encode_lines_spec(rest) == encode_line_spec(all[i as int].0, all[i as int].1)
                + encode_lines_spec(all.skip(i as int + 1)));
            assert(r@ + encode_lines_spec(all.skip(i as int + 1)) =~= before + encode_lines_spec(
                rest,
            ));
        }
        i += 1;
    }
    proof {
        assert(all.skip(ps@.len() as int) =~= Seq::<(Seq<char>, Seq<char>)>::empty());
        assert(r@ + Seq::<char>::empty() =~= r@);
    }
    r
}

/// The position of the first occurrence of `c` in `s`, or the length
/// when `c` does not occur.
pub open spec fn find_char(s: Seq<char>, c: char) -> int
    decreases s.len(),
{
    if s.len() == 0 {
        0
    } else if s[0] == c {
        0
    } else {
        1 + find_char(s.drop_first(), c)
    }
}

/// `find_char` lies in range, everything before it differs from `c`,
/// and it points at `c` unless `c` is absent.
pub proof fn lemma_find_char(s: Seq<char>, c: char)
    ensures
        0 <= find_char(s, c) <= s.len(),
        forall|j: int| 0 <= j < find_char(s, c) ==> s[j] != c,
        find_char(s, c) < s.len() ==> s[find_char(s, c)] == c,
    decreases s.len(),
{
    if s.len() > 0 && s[0] != c {
        lemma_find_char(s.drop_first(), c);
        assert forall|j: int| 0 <= j < find_char(s, c) implies s[j] != c by {
            if j > 0 {
                assert(s.drop_first()[j - 1] != c);
            }
        }
    }
}

/// One line parsed as a record: the key before the first space, the
/// value after it; a line with no space — so the empty line as well —
/// is malformed.
pub open spec fn parse_line_spec(line: Seq<char>) -> Option<(Seq<char>, Seq<char>)> {
    let sp = find_char(line, ' ');
    if sp == line.len() {
        None
    } else {
        Some((line.take(sp), line.skip(sp + 1)))
    }
}

/// A whole intermediate file parsed into records, line by line; `None`
/// when some line is malformed.
pub open spec fn parse_content_spec(s: Seq<char>) -> Option<Seq<(Seq<char>, Seq<char>)>>
    decreases s.len(),
    via parse_content_spec_decreases
{
    if s.len() == 0 {
        Some(Seq::empty())
    } else {
        let e = find_char(s, '\n');
        let rest_start = if e < s.len() {
            e + 1
        } else {
            e
        };
        match parse_line_spec(s.take(e)) {
            None => None,
            Some(kv) => match parse_content_spec(s.skip(rest_start)) {
                None => None,
                Some(ps) => Some(seq![kv] + ps),
            },
        }
    }
}

#[via_fn]
proof fn parse_content_spec_decreases(s: Seq<char>) {
    lemma_find_char(s, '\n');
}

/// `find_char` skips over a prefix free of the sought character.
proof fn lemma_find_char_concat(a: Seq<char>, b: Seq<char>, c: char)
    requires
        forall|i: int| 0 <= i < a.len() ==> a[i] != c,
    ensures
        find_char(a + b, c) == a.len() + find_char(b, c),
    decreases a.len(),
{
    if a.len() == 0 {
        assert(a + b =~= b);
    } else {
        assert((a + b)[0] == a[0]);
        assert((a + b).drop_first() =~= a.drop_first() + b);
        lemma_find_char_concat(a.drop_first(), b, c);
    }
}

/// A record whose key holds neither the separator nor a newline, and
/// whose value holds no newline: what the map side writes.
pub open spec fn wellformed_record(k: Seq<char>, v: Seq<char>) -> bool {
    &&& forall|i: int| 0 <= i < k.len() ==> k[i] != ' ' && k[i] != '\n'
    &&& forall|i: int| 0 <= i < v.len() ==> v[i] != '\n'
}

/// Round trip: a file of well-formed encoded records parses back to
/// exactly those records. The intermediate files a map attempt writes
/// are read back unchanged by the reduce side.
pub proof fn lemma_parse_encode_round_trip(ps: Seq<(Seq<char>, Seq<char>)>)
    requires
        forall|t: int| 0 <= t < ps.len() ==> wellformed_record(ps[t].0, ps[t].1),
    ensures
        parse_content_spec(encode_lines_spec(ps)) == Some(ps),
    decreases ps.len(),
{
    if ps.len() == 0 {
        assert(encode_lines_spec(ps).len() == 0);
        assert(Seq::<(Seq<char>, Seq<char>)>::empty() =~= ps);
    } else {
        let k = ps[0].0;
        let v = ps[0].1;
        let rest = encode_lines_spec(ps.drop_first());
        let s = encode_lines_spec(ps);
        let head = k + seq![' '] + v;
        assert(s =~= head + (seq!['\n'] + rest));
        assert(forall|i: int| 0 <= i < head.len() ==> head[i] != '\n');
        lemma_find_char_concat(head, seq!['\n'] + rest, '\n');
        assert((seq!['\n'] + rest)[0] == '\n');
        assert(find_char(s, '\n') == head.len());
        let line = s.take(head.len() as int);
        assert(line =~= head);
        assert(forall|i: int| 0 <= i < k.len() ==> k[i] != ' ');
        assert(line =~= k + (seq![' '] + v));
        lemma_find_char_concat(k, seq![' '] + v, ' ');
        assert((seq![' '] + v)[0] == ' ');
        assert(find_char(line, ' ') == k.len());
        assert(line.take(k.len() as int) =~= k);
        assert(line.skip(k.len() as int + 1) =~= v);
        assert(parse_line_spec(line) == Some((k, v)));
        assert(s.skip(head.len() as int + 1) =~= rest);
        lemma_parse_encode_round_trip(ps.drop_first());
        assert(parse_content_spec(s) == Some(seq![(k, v)] + ps.drop_first()));
        assert(seq![(k, v)] + ps.drop_first() =~= ps);
    }
}

/// `Some` sequence extended in front, `None` preserved.
pub open spec fn opt_prepend(
    a: Seq<(Seq<char>, Seq<char>)>,
    o: Option<Seq<(Seq<char>, Seq<char>)>>,
) -> Option<Seq<(Seq<char>, Seq<char>)>> {
    match o {
        None => None,
        Some(b) => Some(a + b),
    }
}

/// The position of the first occurrence of `c` at or after `from`, or
/// the string's end.
fn find_char_from(s: &str, from: usize, c: char) -> (r: usize)
    requires
        from <= s@.len(),
    ensures
        from <= r <= s@.len(),
        r - from == find_char(s@.skip(from as int), c),
{
    let n = s.unicode_len();
    let mut j: usize = from;
    proof {
        lemma_find_char(s@.skip(from as int), c);
    }
    while j < n
        invariant
            from <= j <= n,
            n == s@.len(),
            find_char(s@.skip(from as int), c) == (j - from) + find_char(s@.skip(j as int), c),
        decreases n - j,
    {
        let cj = s.get_char(j);
        proof {
            assert(s@.skip(j as int)[0] == cj);
        }
        if cj == c {
            proof {
                assert(find_char(s@.skip(j as int), c) == 0);
            }
            return j;
        }
        proof {
            assert(s@.skip(j as int).drop_first() =~= s@.skip(j as int + 1));
            assert(find_char(s@.skip(j as int), c) == 1 + find_char(s@.skip(j as int + 1), c));
        }
        j += 1;
    }
    proof {
        assert(s@.skip(n as int).len() == 0);
        assert(find_char(s@.skip(n as int), c) == 0);
    }
    n
}

/// Parses a whole intermediate file into records. Succeeds exactly
/// when every line holds a separator; the first malformed line makes
/// the whole file malformed, as a fatal parse fault.
pub fn parse_content(s: &str) -> (r: Result<Vec<(String, String)>, ParseError>)
    ensures
        (r is Ok) == (parse_content_spec(s@) is Some),
        r matches Ok(ps) ==> Some(pair_views(ps@)) == parse_content_spec(s@),
        r matches Err(e) ==> e == ParseError::MissingSeparator,
{
    let n = s.unicode_len();
    let mut pos: usize = 0;
    let mut out: Vec<(String, String)> = Vec::new();
    proof {
        assert(pair_views(out@) =~= Seq::<(Seq<char>, Seq<char>)>::empty());
        assert(s@.skip(0) =~= s@);
        assert(opt_prepend(pair_views(out@), parse_content_spec(s@)) == parse_content_spec(s@))
            by {
            if parse_content_spec(s@) is Some {
                assert(pair_views(out@) + parse_content_spec(s@).unwrap()
                    =~= parse_content_spec(s@).unwrap());
            }
        }
    }
    while pos < n
        invariant
            pos <= n,
            n == s@.len(),
            opt_prepend(pair_views(out@), parse_content_spec(s@.skip(pos as int)))
                == parse_content_spec(s@),
        decreases n - pos,
    {
        let ghost suffix = s@.skip(pos as int);
        let e_abs = find_char_from(s, pos, '\n');
        proof {
            lemma_find_char(suffix, '\n');
        }
        let line_str = s.substring_char(pos, e_abs);
        proof {
            assert(line_str@ =~= suffix.take(find_char(suffix, '\n')));
        }
        let line_len = e_abs - pos;
        let sp = find_char_from(line_str, 0, ' ');
        proof {
            assert(line_str@.skip(0) =~= line_str@);
            lemma_find_char(line_str@, ' ');
        }
        if sp == line_len {
            proof {
                assert(find_char(line_str@, ' ') == line_str@.len());
                assert(parse_line_spec(line_str@) is None);
                assert(parse_content_spec(suffix) is None);
            }
            return Err(ParseError::MissingSeparator);
        }
        let key = line_str.substring_char(0, sp).to_owned();
        let value = line_str.substring_char(sp + 1, line_len).to_owned();
        let ghost out_before = pair_views(out@);
        out.push((key, value));
        let next_pos = if e_abs < n {
            e_abs + 1
        } else {
            e_abs
        };
        proof {
            let e = find_char(suffix, '\n');
            let kv = (line_str@.take(find_char(line_str@, ' ')), line_str@.skip(
                find_char(line_str@, ' ') + 1,
            ));
            assert(parse_line_spec(suffix.take(e)) == Some(kv));
            assert((key@, value@) == kv);
            assert(pair_views(out@) =~= out_before.push(kv));
            assert(s@.skip(next_pos as int) =~= suffix.skip(
                if e < suffix.len() {
                    e + 1
                } else {
                    e
                },
            ));
            assert(parse_content_spec(suffix) == opt_prepend(
                seq![kv],
                parse_content_spec(s@.skip(next_pos as int)),
            )) by {
                if parse_content_spec(s@.skip(next_pos as int)) is Some {
                    let ps = parse_content_spec(s@.skip(next_pos as int)).unwrap();
                    assert(seq![kv] + ps =~= seq![kv] + ps);
                }
            }
            assert(opt_prepend(pair_views(out@), parse_content_spec(s@.skip(next_pos as int)))
                == parse_content_spec(s@)) by {
                if parse_content_spec(s@.skip(next_pos as int)) is Some {
                    let ps = parse_content_spec(s@.skip(next_pos as int)).unwrap();
                    assert(out_before.push(kv) + ps =~= out_before + (seq![kv] + ps));
                }
            }
        }
        pos = next_pos;
    }
    proof {
        assert(s@.skip(n as int).len() == 0);
        assert(parse_content_spec(s@.skip(n as int)) == Some(
            Seq::<(Seq<char>, Seq<char>)>::empty(),
        ));
        assert(pair_views(out@) + Seq::<(Seq<char>, Seq<char>)>::empty() =~= pair_views(out@));
    }
    Ok(out)
}

} // verus!
