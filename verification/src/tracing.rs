//! Export of a rebuilt generation as trace events: one complete event for
//! each execution, a parent before everything nested in it.

use crate::profile::{bounded, trees, ExecutionTree, RegionExecution, ThreadProfile};
use json::number::Number;
use json::JsonValue;
use vstd::prelude::*;

verus! {

/// The value of one member of a JSON object.
#[derive(Debug, Clone, Copy)]
pub enum JsonField {
    /// A string.
    Text(&'static str),
    /// The decimal number `digits` times ten to the power `exponent`,
    /// negated unless `positive` is set.
    Decimal { positive: bool, digits: u64, exponent: i16 },
    /// A whole number.
    Integer(u64),
}

/// The value of one member of a JSON object, as a value.
pub ghost enum JsonFieldValue {
    Text(Seq<char>),
    Decimal { positive: bool, digits: u64, exponent: i16 },
    Integer(u64),
}

impl View for JsonField {
    type V = JsonFieldValue;

    open spec fn view(&self) -> JsonFieldValue {
        match *self {
            JsonField::Text(text) => JsonFieldValue::Text(text@),
            JsonField::Decimal { positive, digits, exponent } => JsonFieldValue::Decimal {
                positive,
                digits,
                exponent,
            },
            JsonField::Integer(value) => JsonFieldValue::Integer(value),
        }
    }
}

/// The members of an object as values: each key with its value.
pub open spec fn members(fields: Seq<(&'static str, JsonField)>) -> Seq<(Seq<char>, JsonFieldValue)> {
    Seq::new(fields.len(), |i: int| (fields[i].0@, fields[i].1@))
}

/// The compact JSON text of the object with the members `members`, in that
/// order, as `json::stringify` writes it.
pub uninterp spec fn object_json(members: Seq<(Seq<char>, JsonFieldValue)>) -> Seq<char>;

/// Builds a `json::JsonValue` object that holds the given members, each
/// value turned into the `JsonValue` of its kind (a decimal through
/// `json::number::Number::from_parts`), and renders it with
/// `json::stringify`. The contract claims that the text depends on the
/// members alone; what the text is, is not proved here.
#[verifier::external_body]
fn stringify_object(fields: &Vec<(&'static str, JsonField)>) -> (text: String)
    ensures
        text@ == object_json(members(fields@)),
{
    let mut data = JsonValue::new_object();
    for (key, field) in fields.iter() {
        data[*key] = match *field {
            JsonField::Text(text) => JsonValue::from(text),
            JsonField::Decimal { positive, digits, exponent } => JsonValue::from(
                Number::from_parts(positive, digits, exponent),
            ),
            JsonField::Integer(value) => JsonValue::from(value),
        };
    }
    json::stringify(data)
}

/// The distance of `nanoseconds` from zero.
pub open spec fn magnitude(nanoseconds: int) -> int {
    if nanoseconds < 0 {
        -nanoseconds
    } else {
        nanoseconds
    }
}

/// A span of `nanoseconds` as a number of microseconds: the nanoseconds with
/// the decimal point moved three places.
pub open spec fn microseconds(nanoseconds: int) -> JsonFieldValue {
    JsonFieldValue::Decimal {
        positive: nanoseconds >= 0,
        digits: magnitude(nanoseconds) as u64,
        exponent: -3i16,
    }
}

/// The members of the complete event of one execution: the region's name,
/// the phase `X`, start and duration in microseconds, process and thread.
pub open spec fn event_members(execution: ExecutionTree, pid: u32, tid: usize) -> Seq<
    (Seq<char>, JsonFieldValue),
> {
    seq![
        ("name"@, JsonFieldValue::Text(execution.region.name)),
        ("ph"@, JsonFieldValue::Text("X"@)),
        ("ts"@, microseconds(execution.start)),
        ("dur"@, microseconds(execution.end - execution.start)),
        ("pid"@, JsonFieldValue::Integer(pid as u64)),
        ("tid"@, JsonFieldValue::Integer(tid as u64)),
    ]
}

/// The executions of a tree in the order of export: an execution comes
/// before everything nested in it, and what is nested comes in the order in
/// which it was opened.
pub open spec fn preorder(execution: ExecutionTree) -> Seq<ExecutionTree>
    decreases execution, 0nat,
{
    seq![execution] + preorder_all(execution.children)
}

/// The executions of a forest in the order of export, tree after tree.
pub open spec fn preorder_all(forest: Seq<ExecutionTree>) -> Seq<ExecutionTree>
    decreases forest, 1nat,
{
    if forest.len() == 0 {
        Seq::empty()
    } else {
        preorder_all(forest.drop_last()) + preorder(forest.last())
    }
}

/// The event texts of the executions in `executions`, one for one.
pub open spec fn events(executions: Seq<ExecutionTree>, pid: u32, tid: usize) -> Seq<Seq<char>> {
    Seq::new(executions.len(), |i: int| object_json(event_members(executions[i], pid, tid)))
}

/// The texts in `target` as values.
pub open spec fn texts(target: Seq<String>) -> Seq<Seq<char>> {
    Seq::new(target.len(), |i: int| target[i]@)
}

/// One more tree at the end of a forest is exported after the forest.
pub proof fn lemma_preorder_push(forest: Seq<ExecutionTree>, execution: ExecutionTree)
    ensures
        preorder_all(forest.push(execution)) == preorder_all(forest) + preorder(execution),
{
    assert(forest.push(execution).drop_last() =~= forest);
}

/// The export of the first `k` trees of a forest opens the export of the
/// forest.
pub proof fn lemma_preorder_prefix(forest: Seq<ExecutionTree>, k: int)
    requires
        0 <= k <= forest.len(),
    ensures
        preorder_all(forest.take(k)).len() <= preorder_all(forest).len(),
        preorder_all(forest).subrange(0, preorder_all(forest.take(k)).len() as int)
            == preorder_all(forest.take(k)),
    decreases forest.len(),
{
    if k == forest.len() {
        assert(forest.take(k) =~= forest);
        assert(preorder_all(forest).subrange(0, preorder_all(forest).len() as int)
            =~= preorder_all(forest));
    } else {
        lemma_preorder_prefix(forest.drop_last(), k);
        assert(forest.drop_last().take(k) =~= forest.take(k));
        assert(preorder_all(forest).subrange(0, preorder_all(forest.take(k)).len() as int)
            =~= preorder_all(forest.take(k)));
    }
}

/// The number of events that the first `k` trees of a forest export.
pub open spec fn events_before(forest: Seq<ExecutionTree>, k: int) -> int {
    preorder_all(forest.take(k)).len() as int
}

/// The number of events that a tree exports.
pub open spec fn events_in(execution: ExecutionTree) -> int {
    preorder(execution).len() as int
}

/// Export ordering in a forest: the export of each tree stands as one block
/// in the export of the forest, behind the blocks of the trees before it.
pub proof fn lemma_trees_in_order(forest: Seq<ExecutionTree>, k: int)
    requires
        0 <= k < forest.len(),
    ensures
        events_before(forest, k) + events_in(forest[k]) <= preorder_all(forest).len(),
        preorder_all(forest).subrange(
            events_before(forest, k),
            events_before(forest, k) + events_in(forest[k]),
        ) == preorder(forest[k]),
        events_before(forest, k + 1) == events_before(forest, k) + events_in(forest[k]),
{
    assert(forest.take(k + 1) =~= forest.take(k).push(forest[k]));
    lemma_preorder_push(forest.take(k), forest[k]);
    lemma_preorder_prefix(forest, k + 1);
    let before = preorder_all(forest.take(k));
    let block = preorder(forest[k]);
    let start = before.len() as int;
    let end = start + block.len();
    assert(preorder_all(forest).subrange(start, end) =~= preorder_all(forest).subrange(
        0,
        end,
    ).subrange(start, end));
    assert((before + block).subrange(start, end) =~= block);
}

/// Export ordering in a tree: an execution is exported first, and the
/// export of each execution nested directly in it follows as one block, the
/// blocks in the order in which the nested executions were opened. So every
/// execution comes before everything nested in it.
pub proof fn lemma_parent_before_nested(execution: ExecutionTree, k: int)
    requires
        0 <= k < execution.children.len(),
    ensures
        preorder(execution)[0] == execution,
        1 + events_before(execution.children, k) + events_in(execution.children[k])
            <= events_in(execution),
        preorder(execution).subrange(
            1 + events_before(execution.children, k),
            1 + events_before(execution.children, k) + events_in(execution.children[k]),
        ) == preorder(execution.children[k]),
{
    let nested = execution.children;
    lemma_trees_in_order(nested, k);
    let start = events_before(nested, k);
    let end = start + events_in(nested[k]);
    assert(preorder(execution).subrange(1 + start, 1 + end) =~= preorder_all(nested).subrange(
        start,
        end,
    ));
}

/// The export holds one event for each execution, and the event at each
/// place is that of the execution at the same place of the export order.
pub proof fn lemma_events_follow_order(
    executions: Seq<ExecutionTree>,
    pid: u32,
    tid: usize,
    i: int,
)
    requires
        0 <= i < executions.len(),
    ensures
        events(executions, pid, tid).len() == executions.len(),
        events(executions, pid, tid)[i] == object_json(event_members(executions[i], pid, tid)),
{
}

/// Writes a span of nanoseconds as a number of microseconds.
fn microseconds_field(nanoseconds: i128) -> (field: JsonField)
    requires
        -(u64::MAX as int) <= nanoseconds <= u64::MAX,
    ensures
        field@ == microseconds(nanoseconds as int),
{
    if nanoseconds < 0 {
        JsonField::Decimal { positive: false, digits: (-nanoseconds) as u64, exponent: -3i16 }
    } else {
        JsonField::Decimal { positive: true, digits: nanoseconds as u64, exponent: -3i16 }
    }
}

/// Appends to `target` the event of `region_execution`, then the events of
/// everything nested in it.
fn traverse(region_execution: &RegionExecution, target: &mut Vec<String>, pid: u32, tid: usize)
    requires
        bounded(region_execution@),
    ensures
        texts(final(target)@) == texts(old(target)@) + events(
            preorder(region_execution@),
            pid,
            tid,
        ),
    decreases region_execution,
{
    let start = region_execution.start.nanoseconds;
    let duration = region_execution.end.nanoseconds - region_execution.start.nanoseconds;
    let mut fields: Vec<(&'static str, JsonField)> = Vec::new();
    fields.push(("name", JsonField::Text(region_execution.region.name)));
    fields.push(("ph", JsonField::Text("X")));
    fields.push(("ts", microseconds_field(start)));
    fields.push(("dur", microseconds_field(duration)));
    fields.push(("pid", JsonField::Integer(pid as u64)));
    fields.push(("tid", JsonField::Integer(tid as u64)));
    proof {
        assert(members(fields@) =~= event_members(region_execution@, pid, tid));
    }
    target.push(stringify_object(&fields));
    proof {
        crate::profile::lemma_children_trees(*region_execution);
        assert(texts(target@) =~= texts(old(target)@) + events(
            seq![region_execution@] + preorder_all(
                trees(region_execution.children@).take(0),
            ),
            pid,
            tid,
        ));
    }
    let mut k: usize = 0;
    while k < region_execution.children.len()
        invariant
            bounded(region_execution@),
            region_execution@.children == trees(region_execution.children@),
            k <= region_execution.children@.len(),
            texts(target@) == texts(old(target)@) + events(
                seq![region_execution@] + preorder_all(
                    trees(region_execution.children@).take(k as int),
                ),
                pid,
                tid,
            ),
        decreases region_execution.children@.len() - k,
    {
        let ghost nested = trees(region_execution.children@);
        assert(bounded(region_execution@.children[k as int]));
        traverse(&region_execution.children[k], target, pid, tid);
        proof {
            assert(nested.take(k as int + 1) =~= nested.take(k as int).push(nested[k as int]));
            lemma_preorder_push(nested.take(k as int), nested[k as int]);
            assert(texts(target@) =~= texts(old(target)@) + events(
                seq![region_execution@] + preorder_all(nested.take(k as int + 1)),
                pid,
                tid,
            ));
        }
        k += 1;
    }
    proof {
        let nested = trees(region_execution.children@);
        assert(nested.take(nested.len() as int) =~= nested);
    }
}

/// Export in the complete-event format of trace viewers.
pub trait ToChromeTracing {
    /// Whether the value is fit for export.
    spec fn exportable(&self) -> bool;

    /// The event texts of the export for the process `pid`.
    spec fn trace(&self, pid: u32) -> Seq<Seq<char>>;

    /// Exports the value for the process `pid`: one JSON object for each
    /// event, in order.
    fn to_chrome_tracing(&self, pid: u32) -> (target: Vec<String>)
        requires
            self.exportable(),
        ensures
            texts(target@) == self.trace(pid),
    ;
}

impl ThreadProfile {
    /// Tells whether the profile is fit for export.
    pub fn is_exportable(&self) -> (fit: bool)
        ensures
            fit == self.exportable(),
    {
        let mut k: usize = 0;
        while k < self.root_region_executions.len()
            invariant
                k <= self.root_region_executions@.len(),
                forall|j: int| 0 <= j < k ==> bounded(#[trigger] self.forest()[j]),
            decreases self.root_region_executions@.len() - k,
        {
            if !self.root_region_executions[k].is_bounded() {
                assert(!bounded(self.forest()[k as int]));
                return false;
            }
            k += 1;
        }
        true
    }
}

impl ToChromeTracing for ThreadProfile {
    /// Every start and end is a reading of the clock.
    open spec fn exportable(&self) -> bool {
        forall|k: int| 0 <= k < self.forest().len() ==> bounded(#[trigger] self.forest()[k])
    }

    /// The events of the forest's executions, tree after tree, each tree
    /// with an execution before everything nested in it.
    open spec fn trace(&self, pid: u32) -> Seq<Seq<char>> {
        events(preorder_all(self.forest()), pid, self.thread_id)
    }

    fn to_chrome_tracing(&self, pid: u32) -> (target: Vec<String>) {
        let mut target: Vec<String> = Vec::new();
        let mut k: usize = 0;
        assert(texts(target@) =~= events(preorder_all(self.forest().take(0)), pid, self.thread_id));
        while k < self.root_region_executions.len()
            invariant
                self.exportable(),
                k <= self.root_region_executions@.len(),
                texts(target@) == events(
                    preorder_all(self.forest().take(k as int)),
                    pid,
                    self.thread_id,
                ),
            decreases self.root_region_executions@.len() - k,
        {
            let ghost forest = self.forest();
            assert(bounded(forest[k as int]));
            traverse(&self.root_region_executions[k], &mut target, pid, self.thread_id);
            proof {
                assert(forest.take(k as int + 1) =~= forest.take(k as int).push(forest[k as int]));
                lemma_preorder_push(forest.take(k as int), forest[k as int]);
                assert(texts(target@) =~= events(
                    preorder_all(forest.take(k as int + 1)),
                    pid,
                    self.thread_id,
                ));
            }
            k += 1;
        }
        proof {
            assert(self.forest().take(self.forest().len() as int) =~= self.forest());
        }
        target
    }
}

} // verus!
