//! The worker's computation, as pure functions of plain values.
//!
//! The worker's loop polls the controller, executes the task it is
//! handed, reports back, and sleeps briefly when idle; the reading and
//! writing of files happens around these functions. Map output is
//! partitioned deterministically into one bucket per reduce partition;
//! reduce input is parsed, sorted, grouped by key, folded through the
//! application, and encoded again — a pure function of its inputs, so
//! a duplicate attempt rewrites identical bytes.
use vstd::prelude::*;
use crate::App;
use crate::coordinator::PollTaskReply;
use crate::kv::{ParseError, encode_line, encode_lines, encode_line_spec, encode_lines_spec,
    group_pairs, grouped, group_views, pair_views, parse_content, parse_content_spec, sort_pairs,
    sorted_pairs};
use crate::partition::{partition_of_key, spec_partition};
use crate::task::{Task, clone_strings};
use crate::text::{dec_digits, u64_to_string};
use crate::trusted::fresh_suffix;

verus! {

/// What a worker does with a poll answer: stop, execute the task, or
/// sleep briefly and poll again.
pub enum WorkerAction {
    Shutdown,
    Execute(Task),
    Idle,
}

/// The decision of one turn of the worker's loop: a shutdown answer
/// ends the loop, a task is executed, no task means a short sleep
/// before the next poll.
pub fn worker_step(reply: PollTaskReply) -> (a: WorkerAction)
    ensures
        reply.shutdown ==> a is Shutdown,
        (!reply.shutdown && reply.task is Some) ==> (a matches WorkerAction::Execute(t) && t
            == reply.task.unwrap()),
        (!reply.shutdown && reply.task is None) ==> a is Idle,
{
    if reply.shutdown {
        WorkerAction::Shutdown
    } else {
        match reply.task {
            Some(t) => WorkerAction::Execute(t),
            None => WorkerAction::Idle,
        }
    }
}

/// The content of reduce bucket `j`: the records whose key partitions
/// to `j`, in their original order, one line each.
pub open spec fn bucket_content(ps: Seq<(Seq<char>, Seq<char>)>, n_reduce: u64, j: int) -> Seq<
    char,
>
    decreases ps.len(),
{
    if ps.len() == 0 {
        Seq::empty()
    } else {
        let rest = bucket_content(ps.drop_first(), n_reduce, j);
        if spec_partition(ps[0].0, n_reduce) == j {
            encode_line_spec(ps[0].0, ps[0].1) + rest
        } else {
            rest
        }
    }
}

/// Builds the content of one reduce bucket from the map output.
fn build_bucket(pairs: &Vec<(String, String)>, n_reduce: u64, j: u64) -> (r: String)
    requires
        n_reduce >= 1,
    ensures
        r@ == bucket_content(pair_views(pairs@), n_reduce, j as int),
{
    let ghost all = pair_views(pairs@);
    let mut r = String::new();
    let mut i: usize = 0;
    proof {
        assert(all.skip(0) =~= all);
        assert(r@ =~= Seq::<char>::empty());
    }
    while i < pairs.len()
        invariant
            i <= pairs@.len(),
            n_reduce >= 1,
            all == pair_views(pairs@),
            r@ + bucket_content(all.skip(i as int), n_reduce, j as int) == bucket_content(
                all,
                n_reduce,
                j as int,
            ),
        decreases pairs@.len() - i,
    {
        let ghost before = r@;
        let ghost rest = all.skip(i as int);
        proof {
            assert(rest[0] == all[i as int]);
            assert(rest.drop_first() =~= all.skip(i as int + 1));
        }
        let p = partition_of_key(pairs[i].0.as_str(), n_reduce);
        if p == j {
            let line = encode_line(pairs[i].0.as_str(), pairs[i].1.as_str());
            r.append(line.as_str());
            proof {
                assert(r@ + bucket_content(all.skip(i as int + 1), n_reduce, j as int)
                    =~= before + bucket_content(rest, n_reduce, j as int));
            }
        } else {
            proof {
                assert(bucket_content(rest, n_reduce, j as int) == bucket_content(
                    all.skip(i as int + 1),
                    n_reduce,
                    j as int,
                ));
            }
        }
        i += 1;
    }
    proof {
        assert(all.skip(pairs@.len() as int) =~= Seq::<(Seq<char>, Seq<char>)>::empty());
        assert(r@ + Seq::<char>::empty() =~= r@);
    }
    r
}

/// Partitions the map output into `n_reduce` buckets: bucket `j`
/// holds, in input order, exactly the records whose key partitions to
/// `j`, encoded one line each. This is the map attempt's whole
/// file-bound output, so a retried attempt produces identical bucket
/// contents.
pub fn map_task_buckets(pairs: &Vec<(String, String)>, n_reduce: u64) -> (buckets: Vec<String>)
    requires
        1 <= n_reduce <= usize::MAX,
    ensures
        buckets@.len() == n_reduce,
        forall|j: int|
            0 <= j < n_reduce ==> buckets@[j]@ == bucket_content(pair_views(pairs@), n_reduce, j),
{
    let mut buckets: Vec<String> = Vec::new();
    let n = n_reduce as usize;
    let mut j: usize = 0;
    while j < n
        invariant
            j <= n,
            n == n_reduce,
            n_reduce >= 1,
            buckets@.len() == j,
            forall|t: int|
                0 <= t < j ==> buckets@[t]@ == bucket_content(pair_views(pairs@), n_reduce, t),
        decreases n - j,
    {
        let b = build_bucket(pairs, n_reduce, j as u64);
        buckets.push(b);
        j += 1;
    }
    buckets
}

/// The name of the intermediate file a map attempt writes for one
/// partition: the map index, the partition, and a fresh random suffix,
/// so that two attempts at the same logical task never collide.
pub open spec fn intermediate_name_spec(i: u64, j: u64, sfx: Seq<char>) -> Seq<char> {
    "out/mr-"@ + dec_digits(i as int) + "-"@ + dec_digits(j as int) + "-"@ + sfx
}

/// Builds a fresh intermediate file name for one (map task, partition)
/// pair; the suffix is unique to this attempt.
pub fn intermediate_name(map_index: u64, partition: u64) -> (r: String)
    ensures
        exists|sfx: Seq<char>|
            sfx.len() == 36 && r@ == intermediate_name_spec(map_index, partition, sfx),
{
    let mut r = String::new();
    r.append("out/mr-");
    let d1 = u64_to_string(map_index);
    r.append(d1.as_str());
    r.append("-");
    let d2 = u64_to_string(partition);
    r.append(d2.as_str());
    r.append("-");
    let sfx = fresh_suffix();
    r.append(sfx.as_str());
    proof {
        assert(r@ =~= intermediate_name_spec(map_index, partition, sfx@));
    }
    r
}

/// The final output file name of a reduce partition, deterministic by
/// partition index.
pub open spec fn output_name_spec(p: u64) -> Seq<char> {
    "out/mr-out-"@ + dec_digits(p as int)
}

/// Builds the final output file name of a reduce partition.
pub fn output_name(partition: u64) -> (r: String)
    ensures
        r@ == output_name_spec(partition),
{
    let mut r = String::new();
    r.append("out/mr-out-");
    let d = u64_to_string(partition);
    r.append(d.as_str());
    proof {
        assert(r@ =~= output_name_spec(partition));
    }
    r
}

/// The records of several intermediate files, concatenated in file
/// order; `None` when any file holds a malformed line.
pub open spec fn parse_all(cs: Seq<Seq<char>>) -> Option<Seq<(Seq<char>, Seq<char>)>>
    decreases cs.len(),
{
    if cs.len() == 0 {
        Some(Seq::empty())
    } else {
        match parse_content_spec(cs[0]) {
            None => None,
            Some(ps) => match parse_all(cs.drop_first()) {
                None => None,
                Some(rest) => Some(ps + rest),
            },
        }
    }
}

/// `Some` sequence extended in front, `None` preserved.
pub open spec fn opt_prepend_all(
    a: Seq<(Seq<char>, Seq<char>)>,
    o: Option<Seq<(Seq<char>, Seq<char>)>>,
) -> Option<Seq<(Seq<char>, Seq<char>)>> {
    match o {
        None => None,
        Some(b) => Some(a + b),
    }
}

/// Parses every intermediate file of a reduce task into one record
/// list, in file order; the first malformed line fails the whole
/// attempt.
pub fn parse_many(contents: &Vec<String>) -> (r: Result<Vec<(String, String)>, ParseError>)
    ensures
        (r is Ok) == (parse_all(contents.deep_view()) is Some),
        r matches Ok(ps) ==> Some(pair_views(ps@)) == parse_all(contents.deep_view()),
        r matches Err(e) ==> e == ParseError::MissingSeparator,
{
    let ghost cs = contents.deep_view();
    let mut acc: Vec<(String, String)> = Vec::new();
    let mut i: usize = 0;
    proof {
        assert(cs.len() == contents@.len());
        assert(cs.skip(0) =~= cs);
        assert(pair_views(acc@) =~= Seq::<(Seq<char>, Seq<char>)>::empty());
        if parse_all(cs) is Some {
            assert(pair_views(acc@) + parse_all(cs).unwrap() =~= parse_all(cs).unwrap());
        }
    }
    while i < contents.len()
        invariant
            i <= contents@.len(),
            cs == contents.deep_view(),
            cs.len() == contents@.len(),
            opt_prepend_all(pair_views(acc@), parse_all(cs.skip(i as int))) == parse_all(cs),
        decreases contents@.len() - i,
    {
        let ghost rest = cs.skip(i as int);
        proof {
            assert(rest[0] == cs[i as int]);
            assert(rest.drop_first() =~= cs.skip(i as int + 1));
            assert(contents@[i as int]@ == cs[i as int]);
        }
        match parse_content(contents[i].as_str()) {
            Err(e) => {
                proof {
                    assert(parse_content_spec(cs[i as int]) is None);
                    assert(parse_all(rest) is None);
                }
                return Err(e);
            },
            Ok(mut ps) => {
                let ghost acc_before = pair_views(acc@);
                let ghost ps_views = pair_views(ps@);
                acc.append(&mut ps);
                proof {
                    assert(pair_views(acc@) =~= acc_before + ps_views);
                    assert(parse_content_spec(cs[i as int]) == Some(ps_views));
                    if parse_all(cs.skip(i as int + 1)) is Some {
                        let tail = parse_all(cs.skip(i as int + 1)).unwrap();
                        assert(parse_all(rest) == Some(ps_views + tail));
                        assert((acc_before + ps_views) + tail =~= acc_before + (ps_views + tail));
                    }
                }
            },
        }
        i += 1;
    }
    proof {
        assert(cs.skip(contents@.len() as int).len() == 0);
        assert(parse_all(cs.skip(contents@.len() as int)) == Some(
            Seq::<(Seq<char>, Seq<char>)>::empty(),
        ));
        assert(pair_views(acc@) + Seq::<(Seq<char>, Seq<char>)>::empty() =~= pair_views(acc@));
    }
    Ok(acc)
}

/// Applies the application's reduce once per group, in group order;
/// the output record for a group keeps the group's key, its value is
/// whatever the application returned.
pub fn reduce_groups<A: App>(app: &A, groups: &Vec<(String, Vec<String>)>) -> (out: Vec<
    (String, String),
>)
    ensures
        out@.len() == groups@.len(),
        forall|k: int| 0 <= k < out@.len() ==> out@[k].0@ == groups@[k].0@,
{
    let mut out: Vec<(String, String)> = Vec::new();
    let mut i: usize = 0;
    while i < groups.len()
        invariant
            i <= groups@.len(),
            out@.len() == i,
            forall|k: int| 0 <= k < i ==> out@[k].0@ == groups@[k].0@,
        decreases groups@.len() - i,
    {
        let key_out = groups[i].0.clone();
        let key_arg = groups[i].0.clone();
        let values = clone_strings(&groups[i].1);
        let reduced = app.reduce(key_arg, values);
        out.push((key_out, reduced));
        i += 1;
    }
    out
}

/// The output records of a reduce attempt: the group keys, each paired
/// with the value the application returned for it.
pub open spec fn lines_for(
    groups: Seq<(Seq<char>, Seq<Seq<char>>)>,
    outs: Seq<Seq<char>>,
) -> Seq<(Seq<char>, Seq<char>)> {
    Seq::new(groups.len(), |k: int| (groups[k].0, outs[k]))
}

/// What a reduce attempt's output looks like: the parsed records in
/// some sorted arrangement, grouped by key, one output line per group
/// under that group's key. The values come from the application, so
/// only their place is fixed here.
pub open spec fn reduce_output_shape(parsed: Seq<(Seq<char>, Seq<char>)>, out: Seq<char>) -> bool {
    exists|sorted_ps: Seq<(Seq<char>, Seq<char>)>, outs: Seq<Seq<char>>|
        {
            &&& sorted_ps.to_multiset() == parsed.to_multiset()
            &&& sorted_pairs(sorted_ps)
            &&& outs.len() == grouped(sorted_ps).len()
            &&& out == encode_lines_spec(lines_for(grouped(sorted_ps), outs))
        }
}

/// One reduce attempt's whole computation, from the contents of its
/// intermediate files to the bytes of its output file: parse every
/// file, sort all records by key, group consecutive equal keys, fold
/// each group through the application, and encode one line per group.
/// Fails exactly when some intermediate line is malformed.
pub fn run_reduce_output<A: App>(app: &A, contents: &Vec<String>) -> (r: Result<
    String,
    ParseError,
>)
    ensures
        (r is Ok) == (parse_all(contents.deep_view()) is Some),
        r matches Ok(out) ==> reduce_output_shape(
            parse_all(contents.deep_view()).unwrap(),
            out@,
        ),
        r matches Err(e) ==> e == ParseError::MissingSeparator,
{
    let parsed = match parse_many(contents) {
        Err(e) => {
            return Err(e);
        },
        Ok(ps) => ps,
    };
    let sorted = sort_pairs(parsed);
    let groups = group_pairs(&sorted);
    let outs = reduce_groups(app, &groups);
    let encoded = encode_lines(&outs);
    proof {
        let sorted_ps = pair_views(sorted@);
        let out_vals = Seq::new(outs@.len(), |k: int| outs@[k].1@);
        assert(group_views(groups@) == grouped(sorted_ps));
        assert(out_vals.len() == grouped(sorted_ps).len());
        assert(pair_views(outs@) =~= lines_for(grouped(sorted_ps), out_vals));
        assert(encoded@ == encode_lines_spec(lines_for(grouped(sorted_ps), out_vals)));
        assert(reduce_output_shape(parse_all(contents.deep_view()).unwrap(), encoded@));
    }
    Ok(encoded)
}

} // verus!
