//! Records, shards and streams, and the collection that finds a stream by its name.
use crate::text::str_eq;
use vstd::prelude::*;

verus! {

// ---- searching a sequence ----------------------------------------------------

/// The first index at which `wanted` holds.
pub open spec fn first_where<T>(items: Seq<T>, wanted: spec_fn(T) -> bool) -> Option<int>
    decreases items.len(),
{
    if items.len() == 0 {
        None
    } else {
        match first_where(items.drop_last(), wanted) {
            Some(i) => Some(i),
            None => if wanted(items.last()) {
                Some(items.len() - 1)
            } else {
                None
            },
        }
    }
}

/// `first_where` is the one index at which `wanted` holds and before which it never does.
pub proof fn lemma_first_where<T>(items: Seq<T>, wanted: spec_fn(T) -> bool)
    ensures
        match first_where(items, wanted) {
            Some(i) => 0 <= i < items.len() && wanted(items[i]) && forall|k: int|
                0 <= k < i ==> !wanted(#[trigger] items[k]),
            None => forall|k: int| 0 <= k < items.len() ==> !wanted(#[trigger] items[k]),
        },
    decreases items.len(),
{
    if items.len() > 0 {
        let rest = items.drop_last();
        lemma_first_where(rest, wanted);
        assert forall|k: int| 0 <= k < rest.len() implies #[trigger] items[k] == rest[k] by {}
    }
}

/// An index at which `wanted` holds for the first time is `first_where`.
pub proof fn lemma_first_where_is<T>(items: Seq<T>, wanted: spec_fn(T) -> bool, i: int)
    requires
        0 <= i < items.len(),
        wanted(items[i]),
        forall|k: int| 0 <= k < i ==> !wanted(#[trigger] items[k]),
    ensures
        first_where(items, wanted) == Some(i),
{
    lemma_first_where(items, wanted);
}

// ---- records -----------------------------------------------------------------

/// A record as a mathematical value.
pub struct RecordV {
    pub seq: u64,
    pub partition_key: Seq<char>,
    pub data: Seq<u8>,
    pub timestamp_ms: u128,
}

/// A single record stored in a shard.
#[derive(Debug, PartialEq, Eq)]
pub struct Record {
    pub seq: u64,
    pub partition_key: String,
    pub data: Vec<u8>,
    pub timestamp_ms: u128,
}

impl View for Record {
    type V = RecordV;

    open spec fn view(&self) -> RecordV {
        RecordV {
            seq: self.seq,
            partition_key: self.partition_key@,
            data: self.data@,
            timestamp_ms: self.timestamp_ms,
        }
    }
}

impl Clone for Record {
    fn clone(&self) -> (r: Self)
        ensures
            r@ == self@,
    {
        let data = self.data.clone();
        assert(data@ =~= self.data@);
        Record {
            seq: self.seq,
            partition_key: self.partition_key.clone(),
            data,
            timestamp_ms: self.timestamp_ms,
        }
    }
}

pub open spec fn records_view(records: Seq<Record>) -> Seq<RecordV> {
    records.map_values(|record: Record| record@)
}

// ---- shards ------------------------------------------------------------------

/// A shard as a mathematical value.
pub struct ShardV {
    pub id: Seq<char>,
    pub hash_start: u128,
    pub hash_end: u128,
    pub records: Seq<RecordV>,
    pub closed: bool,
}

/// One shard: a contiguous slice of the 128-bit partition-key hash space.
pub struct Shard {
    pub id: String,
    pub hash_start: u128,
    pub hash_end: u128,
    pub records: Vec<Record>,
    pub closed: bool,
}

impl View for Shard {
    type V = ShardV;

    open spec fn view(&self) -> ShardV {
        ShardV {
            id: self.id@,
            hash_start: self.hash_start,
            hash_end: self.hash_end,
            records: records_view(self.records@),
            closed: self.closed,
        }
    }
}

pub open spec fn shards_view(shards: Seq<Shard>) -> Seq<ShardV> {
    shards.map_values(|shard: Shard| shard@)
}

/// The first shard with this id.
pub open spec fn shard_index(shards: Seq<ShardV>, id: Seq<char>) -> Option<int> {
    first_where(shards, |shard: ShardV| shard.id == id)
}

/// Finds the first shard with this id.
pub fn find_shard(shards: &Vec<Shard>, id: &str) -> (r: Option<usize>)
    ensures
        match shard_index(shards_view(shards@), id@) {
            Some(i) => r is Some && r->0 as int == i && 0 <= i < shards@.len() && shards@[i].id@ == id@,
            None => r is None,
        },
{
    let ghost wanted = |shard: ShardV| shard.id == id@;
    let mut i: usize = 0;
    while i < shards.len()
        invariant
            i <= shards@.len(),
            wanted == (|shard: ShardV| shard.id == id@),
            forall|k: int| 0 <= k < i ==> !wanted(#[trigger] shards_view(shards@)[k]),
        decreases shards@.len() - i,
    {
        if str_eq(shards[i].id.as_str(), id) {
            proof {
                lemma_first_where_is(shards_view(shards@), wanted, i as int);
            }
            return Some(i);
        }
        i = i + 1;
    }
    proof {
        lemma_first_where(shards_view(shards@), wanted);
    }
    None
}

// ---- streams -----------------------------------------------------------------

/// A stream as a mathematical value.
pub struct StreamV {
    pub name: Seq<char>,
    pub arn: Seq<char>,
    pub shards: Seq<ShardV>,
    pub retention_secs: u64,
    pub created_ms: u128,
}

/// A stream and its shards.
pub struct Stream {
    pub name: String,
    pub arn: String,
    pub shards: Vec<Shard>,
    pub retention_secs: u64,
    pub created_ms: u128,
}

impl View for Stream {
    type V = StreamV;

    open spec fn view(&self) -> StreamV {
        StreamV {
            name: self.name@,
            arn: self.arn@,
            shards: shards_view(self.shards@),
            retention_secs: self.retention_secs,
            created_ms: self.created_ms,
        }
    }
}

/// The streams by name. `order` lists the names in the order in which they were added.
pub struct Streams {
    entries: Vec<(String, Stream)>,
}

impl Streams {
    pub closed spec fn order(self) -> Seq<Seq<char>> {
        self.entries@.map_values(|entry: (String, Stream)| entry.0@)
    }

    pub closed spec fn stream_at(self, i: int) -> StreamV {
        self.entries@[i].1@
    }

    /// The streams as a mathematical map.
    pub open spec fn map(self) -> Map<Seq<char>, StreamV> {
        Map::new(
            |name: Seq<char>| self.order().contains(name),
            |name: Seq<char>| self.stream_at(self.order().index_of(name)),
        )
    }

    /// No name is there twice.
    pub open spec fn wf(self) -> bool {
        self.order().no_duplicates()
    }

    pub proof fn lemma_entry(self, i: int)
        requires
            self.wf(),
            0 <= i < self.order().len(),
        ensures
            self.map().contains_key(self.order()[i]),
            self.map()[self.order()[i]] == self.stream_at(i),
    {
        let name = self.order()[i];
        assert(self.order().contains(name));
        assert(self.order().index_of(name) == i);
    }

    pub fn new() -> (r: Self)
        ensures
            r.wf(),
            r.order() == Seq::<Seq<char>>::empty(),
            r.map() == Map::<Seq<char>, StreamV>::empty(),
    {
        let r = Streams { entries: Vec::new() };
        assert(r.order() =~= Seq::<Seq<char>>::empty());
        assert(r.map() =~= Map::<Seq<char>, StreamV>::empty());
        r
    }

    /// How many streams there are.
    pub fn len(&self) -> (r: usize)
        ensures
            r == self.order().len(),
    {
        self.entries.len()
    }

    /// The name of the stream that was added at place `i`.
    pub fn name_at(&self, i: usize) -> (r: &String)
        requires
            i < self.order().len(),
        ensures
            r@ == self.order()[i as int],
    {
        &self.entries[i].0
    }

    /// The stream that was added at place `i`.
    pub fn at(&self, i: usize) -> (r: &Stream)
        requires
            self.wf(),
            i < self.order().len(),
        ensures
            r@ == self.map()[self.order()[i as int]],
            r@ == self.stream_at(i as int),
    {
        proof {
            self.lemma_entry(i as int);
        }
        &self.entries[i].1
    }

    /// The stream that was added at place `i`, to be changed.
    pub fn at_mut(&mut self, i: usize) -> (r: &mut Stream)
        requires
            old(self).wf(),
            i < old(self).order().len(),
        ensures
            r@ == old(self).map()[old(self).order()[i as int]],
            final(self).wf(),
            final(self).order() == old(self).order(),
            final(self).map() == old(self).map().insert(old(self).order()[i as int], final(r)@),
    {
        proof {
            self.lemma_entry(i as int);
            Self::lemma_change(*self, i as int);
        }
        &mut self.entries[i].1
    }

    /// Changing the stream at one place changes the map at that place's name alone.
    proof fn lemma_change(before: Self, i: int)
        requires
            before.wf(),
            0 <= i < before.order().len(),
        ensures
            forall|after: Self|
                #![trigger after.order()]
                (after.entries@.len() == before.entries@.len() && after.entries@[i].0
                    == before.entries@[i].0 && forall|k: int|
                    0 <= k < before.entries@.len() && k != i ==> after.entries@[k]
                        == before.entries@[k]) ==> {
                    &&& after.order() == before.order()
                    &&& after.map() == before.map().insert(before.order()[i], after.stream_at(i))
                },
    {
        assert forall|after: Self|
            #![trigger after.order()]
            (after.entries@.len() == before.entries@.len() && after.entries@[i].0
                == before.entries@[i].0 && forall|k: int|
                0 <= k < before.entries@.len() && k != i ==> after.entries@[k]
                    == before.entries@[k]) implies {
            &&& after.order() == before.order()
            &&& after.map() == before.map().insert(before.order()[i], after.stream_at(i))
        } by {
            assert(after.order() =~= before.order());
            before.lemma_entry(i);
            after.lemma_entry(i);
            assert(after.map() =~= before.map().insert(before.order()[i], after.stream_at(i)));
        }
    }

    fn position(&self, name: &str) -> (r: Option<usize>)
        requires
            self.wf(),
        ensures
            match r {
                Some(i) => i < self.order().len() && self.order()[i as int] == name@,
                None => !self.map().contains_key(name@),
            },
    {
        let mut i: usize = 0;
        while i < self.entries.len()
            invariant
                i <= self.entries@.len(),
                forall|k: int| 0 <= k < i ==> #[trigger] self.order()[k] != name@,
            decreases self.entries@.len() - i,
        {
            if str_eq(self.entries[i].0.as_str(), name) {
                return Some(i);
            }
            i = i + 1;
        }
        None
    }

    pub fn contains_key(&self, name: &str) -> (r: bool)
        requires
            self.wf(),
        ensures
            r == self.map().contains_key(name@),
    {
        match self.position(name) {
            Some(i) => {
                proof {
                    self.lemma_entry(i as int);
                }
                true
            },
            None => false,
        }
    }

    pub fn get(&self, name: &str) -> (r: Option<&Stream>)
        requires
            self.wf(),
        ensures
            match r {
                Some(stream) => self.map().contains_key(name@) && stream@ == self.map()[name@],
                None => !self.map().contains_key(name@),
            },
    {
        match self.position(name) {
            Some(i) => {
                proof {
                    self.lemma_entry(i as int);
                }
                Some(&self.entries[i].1)
            },
            None => None,
        }
    }

    pub fn get_mut(&mut self, name: &str) -> (r: Option<&mut Stream>)
        requires
            old(self).wf(),
        ensures
            final(self).wf(),
            final(self).order() == old(self).order(),
            match r {
                Some(stream) => {
                    &&& old(self).map().contains_key(name@)
                    &&& stream@ == old(self).map()[name@]
                    &&& final(self).map() == old(self).map().insert(name@, final(stream)@)
                },
                None => !old(self).map().contains_key(name@) && final(self).map()
                    == old(self).map(),
            },
    {
        match self.position(name) {
            Some(i) => {
                proof {
                    self.lemma_entry(i as int);
                    Self::lemma_change(*self, i as int);
                }
                Some(&mut self.entries[i].1)
            },
            None => None,
        }
    }

    /// Adds a stream under a name that is not there yet.
    pub fn insert(&mut self, name: String, stream: Stream)
        requires
            old(self).wf(),
            !old(self).map().contains_key(name@),
        ensures
            final(self).wf(),
            final(self).order() == old(self).order().push(name@),
            final(self).map() == old(self).map().insert(name@, stream@),
    {
        let ghost before = *self;
        self.entries.push((name, stream));
        proof {
            let after = *self;
            assert(after.order() =~= before.order().push(name@));
            assert forall|i: int, j: int|
                0 <= i < after.order().len() && 0 <= j < after.order().len() && i
                    != j implies #[trigger] after.order()[i] != #[trigger] after.order()[j] by {
                assert(i < before.order().len() ==> before.order().contains(before.order()[i]));
                assert(j < before.order().len() ==> before.order().contains(before.order()[j]));
            }
            let n = before.order().len() as int;
            after.lemma_entry(n);
            assert forall|k: Seq<char>| #[trigger]
                after.map().contains_key(k) == before.map().insert(name@, stream@).contains_key(
                    k,
                ) by {
                if before.order().contains(k) {
                    let i = before.order().index_of(k);
                    assert(after.order()[i] == k);
                    assert(after.order().contains(k));
                }
                if after.order().contains(k) {
                    let i = after.order().index_of(k);
                    assert(i < n ==> before.order()[i] == k);
                }
            }
            assert forall|k: Seq<char>| #[trigger]
                after.map().contains_key(k) implies after.map()[k] == before.map().insert(
                name@,
                stream@,
            )[k] by {
                let i = after.order().index_of(k);
                assert(after.order().contains(k));
                after.lemma_entry(i);
                if i < n {
                    before.lemma_entry(i);
                    assert(before.order()[i] == k);
                }
            }
            assert(after.map() =~= before.map().insert(name@, stream@));
        }
    }

    /// Takes a stream out.
    pub fn remove(&mut self, name: &str) -> (r: Option<Stream>)
        requires
            old(self).wf(),
        ensures
            final(self).wf(),
            final(self).map() == old(self).map().remove(name@),
            final(self).order() == old(self).order().remove_value(name@),
            match r {
                Some(stream) => old(self).map().contains_key(name@) && stream@ == old(
                    self,
                ).map()[name@],
                None => !old(self).map().contains_key(name@),
            },
    {
        let ghost before = *self;
        match self.position(name) {
            Some(i) => {
                proof {
                    before.lemma_entry(i as int);
                }
                let (_, stream) = self.entries.remove(i);
                proof {
                    let after = *self;
                    assert(after.order() =~= before.order().remove(i as int));
                    before.order().index_of_first_ensures(name@);
                    assert(before.order().index_of_first(name@) == Some(i as int));
                    assert forall|k: Seq<char>| #[trigger]
                        after.map().contains_key(k) == before.map().remove(name@).contains_key(
                            k,
                        ) by {
                        if before.order().contains(k) && k != name@ {
                            let j = before.order().index_of(k);
                            let at = if j < i {
                                j
                            } else {
                                j - 1
                            };
                            assert(after.order()[at] == k);
                        }
                        if after.order().contains(k) {
                            let j = after.order().index_of(k);
                            let at = if j < i {
                                j
                            } else {
                                j + 1
                            };
                            assert(before.order()[at] == k);
                        }
                    }
                    assert forall|k: Seq<char>| #[trigger]
                        after.map().contains_key(k) implies after.map()[k] == before.map().remove(
                        name@,
                    )[k] by {
                        let j = after.order().index_of(k);
                        assert(after.order().contains(k));
                        after.lemma_entry(j);
                        let at = if j < i {
                            j
                        } else {
                            j + 1
                        };
                        before.lemma_entry(at);
                        assert(before.order()[at] == k);
                    }
                    assert(after.map() =~= before.map().remove(name@));
                }
                Some(stream)
            },
            None => {
                proof {
                    before.order().index_of_first_ensures(name@);
                    assert(!before.order().contains(name@)) by {
                        if before.order().contains(name@) {
                            assert(before.map().contains_key(name@));
                        }
                    }
                    assert(before.map() =~= before.map().remove(name@));
                }
                None
            },
        }
    }
}

} // verus!
