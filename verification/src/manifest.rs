//! Per-partition manifest of intermediate files.
//!
//! During the map phase each completion reports, per reduce partition,
//! the intermediate file it produced; the manifest accumulates these,
//! append-only, and is consumed once to build the reduce tasks. A
//! partition with an empty bucket contributed no intermediate file.
use vstd::prelude::*;

verus! {

/// One bucket of intermediate file names per reduce partition; its view
/// is the sequence of buckets, each a sequence of file names.
pub struct Manifest {
    buckets: Vec<Vec<String>>,
}

impl View for Manifest {
    type V = Seq<Seq<Seq<char>>>;

    closed spec fn view(&self) -> Seq<Seq<Seq<char>>> {
        self.buckets.deep_view()
    }
}

impl Manifest {
    /// One empty bucket per reduce partition.
    pub fn new(n_reduce: usize) -> (m: Self)
        ensures
            m@.len() == n_reduce,
            forall|p: int| 0 <= p < n_reduce ==> m@[p] =~= Seq::<Seq<char>>::empty(),
    {
        let mut buckets: Vec<Vec<String>> = Vec::new();
        let mut i: usize = 0;
        while i < n_reduce
            invariant
                i <= n_reduce,
                buckets.len() == i,
                forall|p: int| 0 <= p < i ==> buckets@[p]@.len() == 0,
            decreases n_reduce - i,
        {
            buckets.push(Vec::new());
            i += 1;
        }
        proof {
            assert forall|p: int| 0 <= p < n_reduce implies buckets.deep_view()[p]
                =~= Seq::<Seq<char>>::empty() by {
                assert(buckets.deep_view()[p] == buckets@[p].deep_view());
                assert(buckets@[p].deep_view().len() == 0);
            }
        }
        Manifest { buckets }
    }

    /// The number of partitions.
    pub fn len(&self) -> (n: usize)
        ensures
            n == self@.len(),
    {
        self.buckets.len()
    }

    /// Appends one file name to the bucket of the given partition.
    pub fn add(&mut self, partition: usize, file: String)
        requires
            partition < old(self)@.len(),
        ensures
            final(self)@ =~= old(self)@.update(partition as int, old(self)@[partition as int].push(file@)),
    {
        let mut bucket = self.buckets.remove(partition);
        bucket.push(file);
        self.buckets.insert(partition, bucket);
        proof {
            assert(self@ =~~= old(self)@.update(
                partition as int,
                old(self)@[partition as int].push(file@),
            ));
        }
    }

    /// The bucket of one partition.
    pub fn bucket(&self, partition: usize) -> (b: &Vec<String>)
        requires
            partition < self@.len(),
        ensures
            b.deep_view() == self@[partition as int],
    {
        &self.buckets[partition]
    }

    /// True when no file was recorded for the partition.
    pub fn is_bucket_empty(&self, partition: usize) -> (r: bool)
        requires
            partition < self@.len(),
        ensures
            r == (self@[partition as int].len() == 0),
    {
        self.buckets[partition].len() == 0
    }
}

} // verus!
