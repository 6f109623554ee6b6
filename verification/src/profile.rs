//! Rebuilding a finished generation: from the flat list of activations to
//! the forest of executions and the index from region to executions.

use crate::recording::{linked, RawThreadProfile, RegionRecordBackend};
use crate::region::{
    key_before, lemma_key_before_irreflexive, lemma_key_before_transitive, Rank, Region,
    RegionKey,
};
use time::Duration;
use vstd::prelude::*;

verus! {

/// `time::Duration`, a span of time. Nothing of its inside is visible here.
#[verifier::external_type_specification]
#[verifier::external_body]
pub struct ExDuration(Duration);

/// The length of a `time::Duration` in nanoseconds, as its
/// `whole_nanoseconds` gives it.
pub uninterp spec fn whole_nanoseconds(duration: Duration) -> int;

/// Calls `time::Duration::nanoseconds`, which makes the duration of that
/// many nanoseconds.
#[verifier::external_body]
fn duration_of(nanoseconds: i64) -> (duration: Duration)
    ensures
        whole_nanoseconds(duration) == nanoseconds,
{
    Duration::nanoseconds(nanoseconds)
}

/// Subtracts two `time::Duration`s with the type's `-`, which gives the
/// duration whose length is the difference of the two lengths. The operator
/// panics where the difference in seconds leaves 64 bits; lengths that fit
/// 64 bits in nanoseconds stay far from that.
#[verifier::external_body]
fn duration_between(end: Duration, start: Duration) -> (duration: Duration)
    requires
        i64::MIN <= whole_nanoseconds(end) <= i64::MAX,
        i64::MIN <= whole_nanoseconds(start) <= i64::MAX,
    ensures
        whole_nanoseconds(duration) == whole_nanoseconds(end) - whole_nanoseconds(start),
{
    end - start
}

impl<'a> From<&'a RegionRecordBackend> for Region {
    /// The region that an activation belongs to.
    fn from(region_record_backend: &'a RegionRecordBackend) -> (region: Self) {
        Region {
            name: region_record_backend.name,
            file: region_record_backend.file,
            line: region_record_backend.line,
        }
    }
}

impl<'a> vstd::std_specs::convert::FromSpecImpl<&'a RegionRecordBackend> for Region {
    open spec fn obeys_from_spec() -> bool {
        true
    }

    open spec fn from_spec(region_record_backend: &'a RegionRecordBackend) -> Region {
        Region {
            name: region_record_backend.name,
            file: region_record_backend.file,
            line: region_record_backend.line,
        }
    }
}

/// A point in time, in nanoseconds.
#[derive(Debug, Clone, Copy)]
pub struct Instant {
    pub nanoseconds: i128,
}

impl View for Instant {
    type V = int;

    open spec fn view(&self) -> int {
        self.nanoseconds as int
    }
}

impl Instant {
    /// The instant `nanoseconds` after the clock's origin.
    pub fn new(nanoseconds: i128) -> (instant: Self)
        ensures
            instant@ == nanoseconds,
    {
        Self { nanoseconds }
    }
}

/// One execution of a region as a value: its identity, its start and end in
/// nanoseconds, and the executions nested in it, in the order in which they
/// were opened.
pub ghost struct ExecutionTree {
    pub region: RegionKey,
    pub start: int,
    pub end: int,
    pub children: Seq<ExecutionTree>,
}

/// One execution of a region, with the executions nested in it.
#[derive(Debug)]
pub struct RegionExecution {
    pub children: Vec<RegionExecution>,
    pub region: Region,
    pub start: Instant,
    pub end: Instant,
}

impl View for RegionExecution {
    type V = ExecutionTree;

    open spec fn view(&self) -> ExecutionTree {
        tree(*self)
    }
}

/// The execution `execution` as a value.
pub open spec fn tree(execution: RegionExecution) -> ExecutionTree
    decreases execution, 0nat,
{
    ExecutionTree {
        region: execution.region.key(),
        start: execution.start@,
        end: execution.end@,
        children: trees_upto(execution.children, execution.children@.len()),
    }
}

/// The first `n` of the executions in `executions` as values.
pub open spec fn trees_upto(executions: Vec<RegionExecution>, n: nat) -> Seq<ExecutionTree>
    decreases executions, n,
{
    if n == 0 || n > executions@.len() {
        Seq::empty()
    } else {
        trees_upto(executions, (n - 1) as nat).push(tree(executions@[n - 1]))
    }
}

/// The executions in `executions` as values.
pub open spec fn trees(executions: Seq<RegionExecution>) -> Seq<ExecutionTree> {
    Seq::new(executions.len(), |k: int| executions[k]@)
}

/// The first `n` executions as values are the values of the first `n`
/// executions, one for one.
pub proof fn lemma_trees_upto(executions: Vec<RegionExecution>, n: nat)
    requires
        n <= executions@.len(),
    ensures
        trees_upto(executions, n) == trees(executions@.take(n as int)),
    decreases n,
{
    if n > 0 {
        lemma_trees_upto(executions, (n - 1) as nat);
    }
    assert(trees_upto(executions, n) =~= trees(executions@.take(n as int)));
}

/// The children of an execution, as values, are its children's values.
pub proof fn lemma_children_trees(execution: RegionExecution)
    ensures
        execution@.children == trees(execution.children@),
{
    lemma_trees_upto(execution.children, execution.children@.len());
    assert(execution.children@.take(execution.children@.len() as int) =~= execution.children@);
}

impl RegionExecution {
    /// The time from start to end, each taken as a reading of the clock:
    /// by its low 64 bits.
    pub fn duration(&self) -> (duration: Duration)
        ensures
            whole_nanoseconds(duration) == (self.end.nanoseconds as i64) - (
            self.start.nanoseconds as i64),
            bounded(self@) ==> whole_nanoseconds(duration) == self@.end - self@.start,
    {
        let end = duration_of(#[verifier::truncate] (self.end.nanoseconds as i64));
        let start = duration_of(#[verifier::truncate] (self.start.nanoseconds as i64));
        duration_between(end, start)
    }
}

impl RegionExecution {
    /// Tells whether every start and end in the tree fits in 64 bits.
    pub fn is_bounded(&self) -> (fit: bool)
        ensures
            fit == bounded(self@),
        decreases self,
    {
        if self.start.nanoseconds < i64::MIN as i128 || self.start.nanoseconds > i64::MAX as i128 {
            return false;
        }
        if self.end.nanoseconds < i64::MIN as i128 || self.end.nanoseconds > i64::MAX as i128 {
            return false;
        }
        proof {
            lemma_children_trees(*self);
        }
        let mut k: usize = 0;
        while k < self.children.len()
            invariant
                k <= self.children@.len(),
                self@.children == trees(self.children@),
                forall|j: int| 0 <= j < k ==> bounded(#[trigger] self@.children[j]),
            decreases self.children@.len() - k,
        {
            if !self.children[k].is_bounded() {
                assert(!bounded(self@.children[k as int]));
                return false;
            }
            k += 1;
        }
        true
    }
}

impl Clone for RegionExecution {
    /// A copy with the same value.
    fn clone(&self) -> (copy: Self)
        ensures
            copy@ == self@,
        decreases self,
    {
        let mut children: Vec<RegionExecution> = Vec::new();
        let mut k: usize = 0;
        while k < self.children.len()
            invariant
                k <= self.children@.len(),
                children@.len() == k,
                forall|j: int| 0 <= j < k ==> children@[j]@ == self.children@[j]@,
            decreases self.children@.len() - k,
        {
            let child = self.children[k].clone();
            children.push(child);
            k += 1;
        }
        let copy = RegionExecution { children, region: self.region, start: self.start, end: self.end };
        proof {
            lemma_children_trees(copy);
            lemma_children_trees(*self);
            assert(trees(copy.children@) =~= trees(self.children@));
        }
        copy
    }
}

/// All executions of one region in a generation.
#[derive(Debug)]
pub struct RegionBucket {
    pub region: Region,
    pub executions: Vec<RegionExecution>,
}

/// Whether an execution is one of the region `key`.
pub open spec fn of_region(key: RegionKey) -> spec_fn(ExecutionTree) -> bool {
    |execution: ExecutionTree| execution.region == key
}

/// The region `key` has a bucket in `index`.
pub open spec fn listed(index: Seq<RegionBucket>, key: RegionKey) -> bool {
    exists|i: int| 0 <= i < index.len() && (#[trigger] index[i]).region.key() == key
}

/// The buckets stand in the listing order of their regions, so no region has
/// two buckets.
pub open spec fn ordered(index: Seq<RegionBucket>) -> bool {
    forall|i: int, j: int|
        0 <= i < j < index.len() ==> key_before(
            (#[trigger] index[i]).region.key(),
            (#[trigger] index[j]).region.key(),
        )
}

/// `index` is the index of the executions registered in `log`: its buckets
/// are ordered, every registered execution's region has a bucket, and each
/// bucket holds the registered executions of its region, at least one, in
/// the order in which they were registered.
pub open spec fn indexed(index: Seq<RegionBucket>, log: Seq<ExecutionTree>) -> bool {
    &&& ordered(index)
    &&& forall|i: int|
        0 <= i < index.len() ==> {
            &&& (#[trigger] index[i]).executions@.len() > 0
            &&& trees(index[i].executions@) == log.filter(of_region(index[i].region.key()))
        }
    &&& forall|k: int| 0 <= k < log.len() ==> listed(index, (#[trigger] log[k]).region)
}

/// No registered execution belongs to a region without a bucket.
proof fn lemma_unlisted_region_is_empty(
    index: Seq<RegionBucket>,
    log: Seq<ExecutionTree>,
    key: RegionKey,
)
    requires
        indexed(index, log),
        !listed(index, key),
    ensures
        log.filter(of_region(key)) == Seq::<ExecutionTree>::empty(),
{
    let kept = log.filter(of_region(key));
    if kept.len() > 0 {
        log.lemma_filter_pred(of_region(key), 0);
        log.lemma_filter_contains_rev(of_region(key), kept[0]);
        let k = choose|k: int| 0 <= k < log.len() && log[k] == kept[0];
        assert(listed(index, log[k].region));
    }
    assert(kept =~= Seq::<ExecutionTree>::empty());
}

/// Registering an execution of a region that has a bucket: the execution
/// joins the end of that bucket.
proof fn lemma_register_same(
    index: Seq<RegionBucket>,
    after: Seq<RegionBucket>,
    log: Seq<ExecutionTree>,
    position: int,
    execution: ExecutionTree,
)
    requires
        indexed(index, log),
        0 <= position < index.len(),
        index[position].region.key() == execution.region,
        after.len() == index.len(),
        forall|i: int| 0 <= i < index.len() && i != position ==> after[i] == index[i],
        after[position].region == index[position].region,
        trees(after[position].executions@) == trees(index[position].executions@).push(execution),
    ensures
        indexed(after, log.push(execution)),
{
    let longer = log.push(execution);
    assert forall|i: int, j: int| 0 <= i < j < after.len() implies key_before(
        (#[trigger] after[i]).region.key(),
        (#[trigger] after[j]).region.key(),
    ) by {
        assert(after[i].region == index[i].region);
        assert(after[j].region == index[j].region);
    }
    assert(trees(after[position].executions@).len() == after[position].executions@.len());
    assert forall|i: int| 0 <= i < after.len() implies {
        &&& (#[trigger] after[i]).executions@.len() > 0
        &&& trees(after[i].executions@) == longer.filter(of_region(after[i].region.key()))
    } by {
        log.lemma_filter_push(execution, of_region(after[i].region.key()));
        assert(after[i].region == index[i].region);
        if i != position {
            if i < position {
                lemma_key_before_irreflexive(index[i].region.key());
            } else {
                lemma_key_before_irreflexive(index[position].region.key());
            }
        }
    }
    assert forall|k: int| 0 <= k < longer.len() implies listed(after, (#[trigger] longer[k]).region) by {
        if k < log.len() {
            assert(longer[k] == log[k]);
            let i = choose|i: int| 0 <= i < index.len() && (#[trigger] index[i]).region.key() == log[k].region;
            assert(after[i].region == index[i].region);
        } else {
            assert(after[position].region.key() == execution.region);
        }
    }
}

/// Registering the first execution of a region: a bucket with that one
/// execution enters the index at the region's place in the listing order.
proof fn lemma_register_new(
    index: Seq<RegionBucket>,
    bucket: RegionBucket,
    log: Seq<ExecutionTree>,
    position: int,
    execution: ExecutionTree,
)
    requires
        indexed(index, log),
        0 <= position <= index.len(),
        forall|j: int| 0 <= j < position ==> key_before((#[trigger] index[j]).region.key(), execution.region),
        position < index.len() ==> key_before(execution.region, index[position].region.key()),
        bucket.region.key() == execution.region,
        trees(bucket.executions@) == seq![execution],
    ensures
        indexed(index.insert(position, bucket), log.push(execution)),
{
    let after = index.insert(position, bucket);
    let longer = log.push(execution);
    assert forall|j: int| position <= j < index.len() implies key_before(
        execution.region,
        (#[trigger] index[j]).region.key(),
    ) by {
        if position < j {
            lemma_key_before_transitive(
                execution.region,
                index[position].region.key(),
                index[j].region.key(),
            );
        }
    }
    assert(!listed(index, execution.region)) by {
        if listed(index, execution.region) {
            let i = choose|i: int| 0 <= i < index.len() && (#[trigger] index[i]).region.key() == execution.region;
            lemma_key_before_irreflexive(execution.region);
        }
    }
    lemma_unlisted_region_is_empty(index, log, execution.region);
    assert forall|i: int, j: int| 0 <= i < j < after.len() implies key_before(
        (#[trigger] after[i]).region.key(),
        (#[trigger] after[j]).region.key(),
    ) by {
        if i < position {
            assert(after[i] == index[i]);
        } else if i > position {
            assert(after[i] == index[i - 1]);
        }
        if j < position {
            assert(after[j] == index[j]);
        } else if j > position {
            assert(after[j] == index[j - 1]);
        }
    }
    assert(trees(bucket.executions@).len() == bucket.executions@.len());
    assert forall|i: int| 0 <= i < after.len() implies {
        &&& (#[trigger] after[i]).executions@.len() > 0
        &&& trees(after[i].executions@) == longer.filter(of_region(after[i].region.key()))
    } by {
        log.lemma_filter_push(execution, of_region(after[i].region.key()));
        if i < position {
            assert(after[i] == index[i]);
            lemma_key_before_irreflexive(execution.region);
        } else if i > position {
            assert(after[i] == index[i - 1]);
            lemma_key_before_irreflexive(execution.region);
        } else {
            assert(Seq::<ExecutionTree>::empty().push(execution) =~= seq![execution]);
        }
    }
    assert forall|k: int| 0 <= k < longer.len() implies listed(after, (#[trigger] longer[k]).region) by {
        if k < log.len() {
            assert(longer[k] == log[k]);
            let i = choose|i: int| 0 <= i < index.len() && (#[trigger] index[i]).region.key() == log[k].region;
            if i < position {
                assert(after[i] == index[i]);
            } else {
                assert(after[i + 1] == index[i]);
            }
        } else {
            assert(after[position] == bucket);
        }
    }
}

/// Registers `execution` in the index: at the end of its region's bucket,
/// or in a new bucket at the region's place in the listing order.
fn register(regions: &mut Vec<RegionBucket>, execution: RegionExecution)
    ensures
        forall|log: Seq<ExecutionTree>| #[trigger]
            indexed(old(regions)@, log) ==> indexed(final(regions)@, log.push(execution@)),
{
    let ghost value = execution@;
    let n = regions.len();
    let mut position: usize = 0;
    let mut searching = true;
    let mut same = false;
    while searching && position < n
        invariant
            n == regions@.len(),
            regions@ == old(regions)@,
            position <= n,
            forall|j: int|
                0 <= j < position ==> key_before(
                    (#[trigger] regions@[j]).region.key(),
                    execution.region.key(),
                ),
            searching ==> !same,
            !searching ==> position < n,
            !searching && same ==> regions@[position as int].region.key() == execution.region.key(),
            !searching && !same ==> key_before(
                execution.region.key(),
                regions@[position as int].region.key(),
            ),
        decreases (n - position) + (if searching { 1int } else { 0int }),
    {
        match regions[position].region.rank(&execution.region) {
            Rank::Before => {
                position += 1;
            },
            Rank::Same => {
                same = true;
                searching = false;
            },
            Rank::After => {
                searching = false;
            },
        }
    }
    if same {
        let ghost before = regions@[position as int].executions@;
        regions[position].executions.push(execution);
        proof {
            assert(trees(regions@[position as int].executions@) =~= trees(before).push(value));
            assert forall|log: Seq<ExecutionTree>| #[trigger]
                indexed(old(regions)@, log) implies indexed(regions@, log.push(value)) by {
                lemma_register_same(old(regions)@, regions@, log, position as int, value);
            }
        }
    } else {
        let mut executions: Vec<RegionExecution> = Vec::new();
        let region = execution.region;
        executions.push(execution);
        let bucket = RegionBucket { region, executions };
        proof {
            assert(trees(bucket.executions@) =~= seq![value]);
        }
        regions.insert(position, bucket);
        proof {
            assert forall|log: Seq<ExecutionTree>| #[trigger]
                indexed(old(regions)@, log) implies indexed(regions@, log.push(value)) by {
                lemma_register_new(old(regions)@, bucket, log, position as int, value);
            }
        }
    }
}

/// The identity of the region that an activation belongs to.
pub open spec fn region_of(backend: RegionRecordBackend) -> RegionKey {
    RegionKey { name: backend.name@, file: backend.file@, line: backend.line }
}

/// The activation was opened directly under the activation `parent`.
pub open spec fn opened_under(backend: RegionRecordBackend, parent: int) -> bool {
    backend.parent is Some && backend.parent.unwrap() == parent
}

/// Among the first `k` activations, those opened directly under `parent`, in
/// the order in which they were opened.
pub open spec fn children_upto(
    activations: Seq<RegionRecordBackend>,
    parent: int,
    k: int,
) -> Seq<usize>
    decreases k,
{
    if k <= 0 || k > activations.len() {
        Seq::empty()
    } else if opened_under(activations[k - 1], parent) {
        children_upto(activations, parent, k - 1).push((k - 1) as usize)
    } else {
        children_upto(activations, parent, k - 1)
    }
}

/// The activations opened directly under `parent`, in the order in which
/// they were opened.
pub open spec fn children_of(activations: Seq<RegionRecordBackend>, parent: int) -> Seq<usize> {
    children_upto(activations, parent, activations.len() as int)
}

/// Among the first `k` activations, those opened under no other, in the
/// order in which they were opened.
pub open spec fn roots_upto(activations: Seq<RegionRecordBackend>, k: int) -> Seq<usize>
    decreases k,
{
    if k <= 0 || k > activations.len() {
        Seq::empty()
    } else if activations[k - 1].parent is None {
        roots_upto(activations, k - 1).push((k - 1) as usize)
    } else {
        roots_upto(activations, k - 1)
    }
}

/// The activations opened under no other, in the order in which they were
/// opened.
pub open spec fn roots_of(activations: Seq<RegionRecordBackend>) -> Seq<usize> {
    roots_upto(activations, activations.len() as int)
}

/// The execution that the activation `index` stands for: its region, its
/// start and end, and below it the executions of the activations opened
/// directly under it.
pub open spec fn tree_of(activations: Seq<RegionRecordBackend>, index: int) -> ExecutionTree
    decreases activations.len() - index, children_of(activations, index).len() + 1,
{
    ExecutionTree {
        region: region_of(activations[index]),
        start: activations[index].start.nanoseconds(),
        end: match activations[index].end {
            Some(end) => end.nanoseconds(),
            None => arbitrary(),
        },
        children: trees_of(activations, index, children_of(activations, index).len()),
    }
}

/// The executions of the first `n` activations opened directly under the
/// activation `index`.
pub open spec fn trees_of(activations: Seq<RegionRecordBackend>, index: int, n: nat) -> Seq<
    ExecutionTree,
>
    decreases activations.len() - index, n,
{
    let children = children_of(activations, index);
    if n == 0 || n > children.len() {
        Seq::empty()
    } else {
        let child = children[n - 1] as int;
        trees_of(activations, index, (n - 1) as nat).push(
            if index < child < activations.len() {
                tree_of(activations, child)
            } else {
                arbitrary()
            },
        )
    }
}

/// The executions of the first `n` roots.
pub open spec fn forest_upto(activations: Seq<RegionRecordBackend>, n: nat) -> Seq<ExecutionTree>
    decreases n,
{
    if n == 0 || n > roots_of(activations).len() {
        Seq::empty()
    } else {
        forest_upto(activations, (n - 1) as nat).push(
            tree_of(activations, roots_of(activations)[n - 1] as int),
        )
    }
}

/// The forest that a generation stands for: the executions of its roots, in
/// the order in which they were opened.
pub open spec fn forest_of(activations: Seq<RegionRecordBackend>) -> Seq<ExecutionTree> {
    forest_upto(activations, roots_of(activations).len())
}

/// The executions of a tree in the order in which they are registered:
/// everything nested in an execution comes before the execution itself.
pub open spec fn postorder(execution: ExecutionTree) -> Seq<ExecutionTree>
    decreases execution, 0nat,
{
    postorder_all(execution.children).push(execution)
}

/// The executions of a forest in the order in which they are registered.
pub open spec fn postorder_all(forest: Seq<ExecutionTree>) -> Seq<ExecutionTree>
    decreases forest, 1nat,
{
    if forest.len() == 0 {
        Seq::empty()
    } else {
        postorder_all(forest.drop_last()) + postorder(forest.last())
    }
}

/// Every start and end in the tree fits in 64 bits, as a reading of the
/// clock does.
pub open spec fn bounded(execution: ExecutionTree) -> bool
    decreases execution,
{
    &&& i64::MIN <= execution.start <= i64::MAX
    &&& i64::MIN <= execution.end <= i64::MAX
    &&& forall|k: int|
        0 <= k < execution.children.len() ==> bounded(#[trigger] execution.children[k])
}

/// One more tree at the end of a forest is registered after the forest.
pub proof fn lemma_postorder_push(forest: Seq<ExecutionTree>, execution: ExecutionTree)
    ensures
        postorder_all(forest.push(execution)) == postorder_all(forest) + postorder(execution),
{
    assert(forest.push(execution).drop_last() =~= forest);
}

/// What is listed as opened under `parent` is exactly what was opened
/// directly under it: each such activation is listed, nothing else is, and
/// the list rises, so it keeps the order of opening and lists nothing twice.
pub proof fn lemma_children_listed(activations: Seq<RegionRecordBackend>, parent: int, k: int)
    requires
        0 <= k <= activations.len() <= usize::MAX,
    ensures
        forall|j: int|
            0 <= j < children_upto(activations, parent, k).len() ==> {
                &&& (#[trigger] children_upto(activations, parent, k)[j]) < k
                &&& opened_under(
                    activations[children_upto(activations, parent, k)[j] as int],
                    parent,
                )
            },
        forall|i: int, j: int|
            0 <= i < j < children_upto(activations, parent, k).len() ==> (#[trigger] children_upto(
                activations,
                parent,
                k,
            )[i]) < (#[trigger] children_upto(activations, parent, k)[j]),
        forall|c: int|
            0 <= c < k && opened_under(#[trigger] activations[c], parent) ==> children_upto(
                activations,
                parent,
                k,
            ).contains(c as usize),
    decreases k,
{
    if k > 0 {
        lemma_children_listed(activations, parent, k - 1);
        let earlier = children_upto(activations, parent, k - 1);
        let listed = children_upto(activations, parent, k);
        assert forall|c: int| 0 <= c < k && opened_under(
            #[trigger] activations[c],
            parent,
        ) implies listed.contains(c as usize) by {
            if c < k - 1 {
                let j = choose|j: int| 0 <= j < earlier.len() && earlier[j] == c as usize;
                assert(listed[j] == c as usize);
            } else {
                assert(listed[listed.len() - 1] == c as usize);
            }
        }
    }
}

/// What is listed as a root is exactly what was opened under no other
/// activation: each such activation is listed, nothing else is, and the list
/// rises.
pub proof fn lemma_roots_listed(activations: Seq<RegionRecordBackend>, k: int)
    requires
        0 <= k <= activations.len() <= usize::MAX,
    ensures
        forall|j: int|
            0 <= j < roots_upto(activations, k).len() ==> {
                &&& (#[trigger] roots_upto(activations, k)[j]) < k
                &&& activations[roots_upto(activations, k)[j] as int].parent is None
            },
        forall|i: int, j: int|
            0 <= i < j < roots_upto(activations, k).len() ==> (#[trigger] roots_upto(
                activations,
                k,
            )[i]) < (#[trigger] roots_upto(activations, k)[j]),
        forall|c: int|
            0 <= c < k && (#[trigger] activations[c]).parent is None ==> roots_upto(
                activations,
                k,
            ).contains(c as usize),
    decreases k,
{
    if k > 0 {
        lemma_roots_listed(activations, k - 1);
        let earlier = roots_upto(activations, k - 1);
        let listed = roots_upto(activations, k);
        assert forall|c: int| 0 <= c < k && (#[trigger] activations[c]).parent
            is None implies listed.contains(c as usize) by {
            if c < k - 1 {
                let j = choose|j: int| 0 <= j < earlier.len() && earlier[j] == c as usize;
                assert(listed[j] == c as usize);
            } else {
                assert(listed[listed.len() - 1] == c as usize);
            }
        }
    }
}

/// A generation in which everything but the first activation was opened
/// directly under the first.
pub open spec fn fans_out(activations: Seq<RegionRecordBackend>) -> bool {
    &&& 1 <= activations.len() <= usize::MAX
    &&& activations[0].parent is None
    &&& forall|i: int| 1 <= i < activations.len() ==> opened_under(#[trigger] activations[i], 0)
}

/// In a generation that fans out, the first `k` activations list the
/// activations `1` to `k - 1` under the first, nothing under any other, and
/// the first as the only root.
proof fn lemma_fan_out_listing(activations: Seq<RegionRecordBackend>, k: int)
    requires
        fans_out(activations),
        1 <= k <= activations.len(),
    ensures
        children_upto(activations, 0, k) == Seq::new((k - 1) as nat, |j: int| (j + 1) as usize),
        forall|c: int| 1 <= c ==> (#[trigger] children_upto(activations, c, k)).len() == 0,
        roots_upto(activations, k) == seq![0usize],
    decreases k,
{
    if k > 1 {
        lemma_fan_out_listing(activations, k - 1);
        assert(opened_under(activations[k - 1], 0));
        assert forall|c: int| 1 <= c implies (#[trigger] children_upto(activations, c, k)).len()
            == 0 by {
            assert(children_upto(activations, c, k - 1).len() == 0);
        }
    } else {
        assert forall|c: int| 1 <= c implies (#[trigger] children_upto(activations, c, k)).len()
            == 0 by {
            assert(children_upto(activations, c, 0).len() == 0);
        }
        assert(roots_upto(activations, 0).len() == 0);
        assert(children_upto(activations, 0, 0).len() == 0);
    }
    assert(children_upto(activations, 0, k) =~= Seq::new(
        (k - 1) as nat,
        |j: int| (j + 1) as usize,
    ));
    assert(roots_upto(activations, k) =~= seq![0usize]);
}

/// In a generation that fans out, the executions of the first `m`
/// activations under the first are `m` executions without children, and
/// they are registered as they stand.
proof fn lemma_fan_out_children(activations: Seq<RegionRecordBackend>, m: nat)
    requires
        fans_out(activations),
        m <= activations.len() - 1,
    ensures
        trees_of(activations, 0, m).len() == m,
        forall|j: int|
            0 <= j < m ==> {
                &&& (#[trigger] trees_of(activations, 0, m)[j]) == tree_of(activations, j + 1)
                &&& trees_of(activations, 0, m)[j].children.len() == 0
            },
        postorder_all(trees_of(activations, 0, m)) == trees_of(activations, 0, m),
    decreases m,
{
    lemma_fan_out_listing(activations, activations.len() as int);
    if m > 0 {
        lemma_fan_out_children(activations, (m - 1) as nat);
        let earlier = trees_of(activations, 0, (m - 1) as nat);
        let last = tree_of(activations, m as int);
        assert(children_of(activations, 0)[m - 1] == m);
        assert(trees_of(activations, 0, m) == earlier.push(last));
        assert(children_of(activations, m as int).len() == 0);
        assert(last.children.len() == 0);
        lemma_postorder_push(earlier, last);
        assert(postorder_all(last.children) =~= Seq::<ExecutionTree>::empty());
        assert(postorder(last) =~= seq![last]);
        assert(earlier + seq![last] =~= earlier.push(last));
    } else {
        assert(postorder_all(trees_of(activations, 0, 0)) =~= trees_of(activations, 0, 0));
    }
}

/// Every execution of a list belongs to the region `key`, so all are kept
/// when the list is narrowed to that region.
proof fn lemma_all_of_region(executions: Seq<ExecutionTree>, key: RegionKey)
    requires
        forall|j: int| 0 <= j < executions.len() ==> (#[trigger] executions[j]).region == key,
    ensures
        executions.filter(of_region(key)) == executions,
    decreases executions.len(),
{
    if executions.len() > 0 {
        lemma_all_of_region(executions.drop_last(), key);
        executions.drop_last().lemma_filter_push(executions.last(), of_region(key));
        assert(executions.drop_last().push(executions.last()) =~= executions);
    } else {
        assert(executions.filter(of_region(key)).len() <= executions.len()) by {
            executions.lemma_filter_len(of_region(key));
        }
        assert(executions.filter(of_region(key)) =~= executions);
    }
}

/// High fan-out: a generation of one root with `n` activations opened
/// directly under it is rebuilt as one tree whose root has exactly those `n`
/// executions as children, in the order in which they were opened and each
/// without children. They are registered in that order before the root, so
/// where all of them belong to one region that is not the root's, that
/// region's executions are exactly these `n`.
pub proof fn lemma_fan_out(activations: Seq<RegionRecordBackend>, key: RegionKey)
    requires
        fans_out(activations),
    ensures
        forest_of(activations) == seq![tree_of(activations, 0)],
        tree_of(activations, 0).children.len() == activations.len() - 1,
        forall|j: int|
            0 <= j < activations.len() - 1 ==> {
                &&& (#[trigger] tree_of(activations, 0).children[j]) == tree_of(
                    activations,
                    j + 1,
                )
                &&& tree_of(activations, 0).children[j].children.len() == 0
            },
        postorder_all(forest_of(activations)) == tree_of(activations, 0).children.push(
            tree_of(activations, 0),
        ),
        region_of(activations[0]) != key && (forall|i: int|
            1 <= i < activations.len() ==> region_of(#[trigger] activations[i]) == key)
            ==> postorder_all(forest_of(activations)).filter(of_region(key)) == tree_of(
            activations,
            0,
        ).children,
{
    let n = (activations.len() - 1) as nat;
    let root = tree_of(activations, 0);
    lemma_fan_out_listing(activations, activations.len() as int);
    lemma_fan_out_children(activations, n);
    assert(forest_upto(activations, 0) =~= Seq::<ExecutionTree>::empty());
    assert(forest_of(activations) =~= seq![root]);
    assert(root.children == trees_of(activations, 0, n));
    lemma_postorder_push(Seq::<ExecutionTree>::empty(), root);
    assert(Seq::<ExecutionTree>::empty().push(root) =~= seq![root]);
    assert(postorder_all(Seq::<ExecutionTree>::empty()) =~= Seq::<ExecutionTree>::empty());
    assert(postorder_all(forest_of(activations)) =~= root.children.push(root));
    if region_of(activations[0]) != key && (forall|i: int|
        1 <= i < activations.len() ==> region_of(#[trigger] activations[i]) == key) {
        assert forall|j: int| 0 <= j < root.children.len() implies (#[trigger] root.children[j]).region
            == key by {
            assert(root.children[j] == tree_of(activations, j + 1));
            assert(region_of(activations[j + 1]) == key);
        }
        lemma_all_of_region(root.children, key);
        root.children.lemma_filter_push(root, of_region(key));
    }
}

/// The executions of one generation of one thread: the forest of its root
/// executions, and for each region the list of its executions.
#[derive(Debug)]
pub struct ThreadProfile {
    pub thread_id: usize,
    pub regions: Vec<RegionBucket>,
    pub root_region_executions: Vec<RegionExecution>,
}

impl ThreadProfile {
    /// The forest of root executions as values.
    pub open spec fn forest(&self) -> Seq<ExecutionTree> {
        trees(self.root_region_executions@)
    }

    /// The index lists, region by region and in the listing order of the
    /// regions, exactly the executions of the forest, and every instant is a
    /// reading of the clock.
    pub open spec fn wf(&self) -> bool {
        &&& indexed(self.regions@, postorder_all(self.forest()))
        &&& forall|k: int| 0 <= k < self.forest().len() ==> bounded(#[trigger] self.forest()[k])
    }
}

impl ThreadProfile {
    /// Looks up the executions of `region`: all of them, in the order in
    /// which they were registered, or nothing where the region was never
    /// executed.
    pub fn executions_of(&self, region: &Region) -> (found: Option<&Vec<RegionExecution>>)
        requires
            self.wf(),
        ensures
            found is Some <==> postorder_all(self.forest()).filter(of_region(region.key())).len()
                > 0,
            found is Some ==> trees(found.unwrap()@) == postorder_all(self.forest()).filter(
                of_region(region.key()),
            ),
    {
        let ghost log = postorder_all(self.forest());
        let mut position: usize = 0;
        while position < self.regions.len()
            invariant
                self.wf(),
                log == postorder_all(self.forest()),
                position <= self.regions@.len(),
                forall|j: int|
                    0 <= j < position ==> (#[trigger] self.regions@[j]).region.key()
                        != region.key(),
            decreases self.regions@.len() - position,
        {
            match self.regions[position].region.rank(region) {
                Rank::Same => {
                    assert(trees(self.regions@[position as int].executions@).len() > 0);
                    return Some(&self.regions[position].executions);
                },
                Rank::Before => {
                    proof {
                        lemma_key_before_irreflexive(region.key());
                    }
                },
                Rank::After => {
                    proof {
                        lemma_key_before_irreflexive(region.key());
                    }
                },
            }
            position += 1;
        }
        proof {
            assert(!listed(self.regions@, region.key()));
            lemma_unlisted_region_is_empty(self.regions@, log, region.key());
        }
        None
    }
}

impl RawThreadProfile {
    /// Tells whether the generation is fit to be rebuilt.
    pub fn is_finished(&self) -> (fit: bool)
        ensures
            fit == self.wf(),
    {
        let mut index: usize = 0;
        while index < self.region_backends.len()
            invariant
                index <= self.region_backends@.len(),
                forall|i: int|
                    0 <= i < index ==> {
                        &&& (#[trigger] self.region_backends@[i]).end is Some
                        &&& match self.region_backends@[i].parent {
                            Some(parent) => parent < i,
                            None => true,
                        }
                    },
            decreases self.region_backends@.len() - index,
        {
            let region_backend = &self.region_backends[index];
            if region_backend.end.is_none() {
                return false;
            }
            match region_backend.parent {
                Some(parent) => {
                    if parent >= index {
                        return false;
                    }
                },
                None => {},
            }
            index += 1;
        }
        true
    }

    /// Rebuilds the generation: every root activation becomes a tree of
    /// executions, and every execution is registered under its region.
    pub fn profile(&self) -> (profile: ThreadProfile)
        requires
            self.wf(),
        ensures
            profile.thread_id == self.thread_id,
            profile.forest() == forest_of(self.region_backends@),
            profile.wf(),
    {
        let ghost activations = self.region_backends@;
        let n = self.region_backends.len();
        let mut children_indices: Vec<Vec<usize>> = Vec::new();
        let mut index: usize = 0;
        while index < n
            invariant
                index <= n,
                children_indices@.len() == index,
                forall|p: int| 0 <= p < index ==> (#[trigger] children_indices@[p])@.len() == 0,
            decreases n - index,
        {
            children_indices.push(Vec::new());
            index += 1;
        }
        let mut root_region_execution_indices: Vec<usize> = Vec::new();
        index = 0;
        while index < n
            invariant
                n == activations.len(),
                activations == self.region_backends@,
                linked(activations),
                index <= n,
                children_indices@.len() == n,
                forall|p: int|
                    0 <= p < n ==> (#[trigger] children_indices@[p])@ == children_upto(
                        activations,
                        p,
                        index as int,
                    ),
                root_region_execution_indices@ == roots_upto(activations, index as int),
            decreases n - index,
        {
            let ghost before = children_indices@;
            match self.region_backends[index].parent {
                Some(parent_index) => {
                    assert(parent_index < index);
                    children_indices[parent_index].push(index);
                    assert forall|p: int| 0 <= p < n implies (#[trigger] children_indices@[p])@
                        == children_upto(activations, p, index as int + 1) by {
                        if p != parent_index {
                            assert(children_indices@[p] == before[p]);
                        }
                    }
                },
                None => {
                    root_region_execution_indices.push(index);
                },
            }
            index += 1;
        }

        let mut regions: Vec<RegionBucket> = Vec::new();
        let mut root_region_executions: Vec<RegionExecution> = Vec::new();
        let mut k: usize = 0;
        while k < root_region_execution_indices.len()
            invariant
                self.wf(),
                n == activations.len(),
                activations == self.region_backends@,
                children_indices@.len() == n,
                forall|p: int|
                    0 <= p < n ==> (#[trigger] children_indices@[p])@ == children_of(
                        activations,
                        p,
                    ),
                root_region_execution_indices@ == roots_of(activations),
                k <= root_region_execution_indices@.len(),
                root_region_executions@.len() == k,
                trees(root_region_executions@) == forest_upto(activations, k as nat),
                forall|j: int| 0 <= j < k ==> bounded(#[trigger] trees(root_region_executions@)[j]),
                indexed(regions@, postorder_all(trees(root_region_executions@))),
            decreases root_region_execution_indices@.len() - k,
        {
            let root_region_index = root_region_execution_indices[k];
            proof {
                lemma_roots_listed(activations, n as int);
            }
            let ghost before = root_region_executions@;
            let root_region = self.generate_region_execution(
                root_region_index,
                &children_indices,
                &mut regions,
            );
            root_region_executions.push(root_region);
            proof {
                assert(trees(root_region_executions@) =~= trees(before).push(root_region@));
                lemma_postorder_push(trees(before), root_region@);
                assert forall|j: int| 0 <= j < k + 1 implies bounded(
                    #[trigger] trees(root_region_executions@)[j],
                ) by {
                    if j < k {
                        assert(trees(root_region_executions@)[j] == trees(before)[j]);
                    }
                }
            }
            k += 1;
        }
        assert(indexed(Seq::<RegionBucket>::empty(), Seq::<ExecutionTree>::empty()));
        ThreadProfile { thread_id: self.thread_id, regions, root_region_executions }
    }

    /// Rebuilds the execution of the activation `index` with everything
    /// nested in it, and registers each execution of the tree once it is
    /// complete.
    fn generate_region_execution(
        &self,
        index: usize,
        children_indices: &Vec<Vec<usize>>,
        regions: &mut Vec<RegionBucket>,
    ) -> (execution: RegionExecution)
        requires
            self.wf(),
            index < self.region_backends@.len(),
            children_indices@.len() == self.region_backends@.len(),
            forall|p: int|
                0 <= p < self.region_backends@.len() ==> (#[trigger] children_indices@[p])@
                    == children_of(self.region_backends@, p),
        ensures
            execution@ == tree_of(self.region_backends@, index as int),
            bounded(execution@),
            forall|log: Seq<ExecutionTree>| #[trigger]
                indexed(old(regions)@, log) ==> indexed(
                    final(regions)@,
                    log + postorder(execution@),
                ),
        decreases self.region_backends@.len() - index,
    {
        let ghost activations = self.region_backends@;
        let n = self.region_backends.len();
        let region_backend = &self.region_backends[index];
        let indices = &children_indices[index];
        let mut children: Vec<RegionExecution> = Vec::new();
        let mut k: usize = 0;
        while k < indices.len()
            invariant
                self.wf(),
                activations == self.region_backends@,
                n == activations.len(),
                index < activations.len(),
                children_indices@.len() == activations.len(),
                forall|p: int|
                    0 <= p < activations.len() ==> (#[trigger] children_indices@[p])@
                        == children_of(activations, p),
                indices@ == children_of(activations, index as int),
                k <= indices@.len(),
                children@.len() == k,
                trees(children@) == trees_of(activations, index as int, k as nat),
                forall|j: int| 0 <= j < k ==> bounded(#[trigger] trees(children@)[j]),
                forall|log: Seq<ExecutionTree>| #[trigger]
                    indexed(old(regions)@, log) ==> indexed(
                        regions@,
                        log + postorder_all(trees(children@)),
                    ),
            decreases indices@.len() - k,
        {
            let child_index = indices[k];
            proof {
                lemma_children_listed(activations, index as int, activations.len() as int);
                assert(opened_under(activations[child_index as int], index as int));
            }
            let ghost before = children@;
            let ghost earlier = regions@;
            let child = self.generate_region_execution(child_index, children_indices, regions);
            children.push(child);
            proof {
                assert(trees(children@) =~= trees(before).push(child@));
                lemma_postorder_push(trees(before), child@);
                assert forall|j: int| 0 <= j < k + 1 implies bounded(#[trigger] trees(children@)[j]) by {
                    if j < k {
                        assert(trees(children@)[j] == trees(before)[j]);
                    }
                }
                assert forall|log: Seq<ExecutionTree>| #[trigger]
                    indexed(old(regions)@, log) implies indexed(
                    regions@,
                    log + postorder_all(trees(children@)),
                ) by {
                    let so_far = log + postorder_all(trees(before));
                    assert(indexed(earlier, so_far));
                    assert(so_far + postorder(child@) =~= log + postorder_all(trees(children@)));
                }
            }
            k += 1;
        }
        let region = Region::from(region_backend);
        let start = Instant::new(region_backend.start.to_nanoseconds());
        let end = Instant::new(region_backend.end.unwrap().to_nanoseconds());
        let execution = RegionExecution { children, region, start, end };
        let ghost earlier = regions@;
        proof {
            lemma_children_trees(execution);
            assert forall|j: int| 0 <= j < execution@.children.len() implies bounded(
                #[trigger] execution@.children[j],
            ) by {
                assert(execution@.children[j] == trees(children@)[j]);
            }
        }
        let copy = execution.clone();
        register(regions, copy);
        proof {
            assert forall|log: Seq<ExecutionTree>| #[trigger]
                indexed(old(regions)@, log) implies indexed(
                regions@,
                log + postorder(execution@),
            ) by {
                let so_far = log + postorder_all(execution@.children);
                assert(indexed(earlier, so_far));
                assert(so_far.push(execution@) =~= log + postorder(execution@));
            }
        }
        execution
    }
}

} // verus!
