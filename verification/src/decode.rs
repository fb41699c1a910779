//! Building the decoded value from a parse tree. Reading a number's
//! spelling as a double is floating point, which the caller does: it gets
//! the spellings in document order and hands back the numbers in the same
//! order. Both walks keep their own stack, so deep nesting does not exhaust
//! the call stack.
use vstd::prelude::*;
use crate::grammar::Tree;
use crate::parser::{tree_entries, tree_items, JsonTree};
use crate::revive::{
    items_parsed, keys_model, lemma_values_model_subrange, members_parsed, pair_members, pair_up,
    parsed, purust_json_revive, revive,
};
use crate::text::copy_units;
use crate::value::{number_wf, values_model, JsNumber, JsValue, Json, JsonError, NumberModel};

verus! {

/// The number of numbers in `t`.
pub open spec fn count(t: Tree) -> nat
    decreases t, 1nat,
{
    match t {
        Tree::Number(_) => 1,
        Tree::Array(items) => items_count(items),
        Tree::Object(fs) => members_count(fs),
        _ => 0,
    }
}

pub open spec fn items_count(items: Seq<Tree>) -> nat
    decreases items, 0nat,
{
    if items.len() == 0 {
        0
    } else {
        count(items[0]) + items_count(items.skip(1))
    }
}

pub open spec fn members_count(fs: Seq<(Seq<u16>, Tree)>) -> nat
    decreases fs, 0nat,
{
    if fs.len() == 0 {
        0
    } else {
        count(fs[0].1) + members_count(fs.skip(1))
    }
}

/// The spellings of the numbers in `t`, in document order.
pub open spec fn spellings(t: Tree) -> Seq<Seq<u16>>
    decreases t, 1nat,
{
    match t {
        Tree::Number(s) => seq![s],
        Tree::Array(items) => items_spellings(items),
        Tree::Object(fs) => members_spellings(fs),
        _ => Seq::empty(),
    }
}

pub open spec fn items_spellings(items: Seq<Tree>) -> Seq<Seq<u16>>
    decreases items, 0nat,
{
    if items.len() == 0 {
        Seq::empty()
    } else {
        spellings(items[0]) + items_spellings(items.skip(1))
    }
}

pub open spec fn members_spellings(fs: Seq<(Seq<u16>, Tree)>) -> Seq<Seq<u16>>
    decreases fs, 0nat,
{
    if fs.len() == 0 {
        Seq::empty()
    } else {
        spellings(fs[0].1) + members_spellings(fs.skip(1))
    }
}

/// The member values, in order.
pub open spec fn tree_values(fs: Seq<(Seq<u16>, Tree)>) -> Seq<Tree> {
    Seq::new(fs.len(), |i: int| fs[i].1)
}

/// The number of values in `t`, itself included.
spec fn tree_size(t: Tree) -> nat
    decreases t, 1nat,
{
    match t {
        Tree::Array(items) => 1 + items_size(items),
        Tree::Object(fs) => 1 + members_size(fs),
        _ => 1,
    }
}

spec fn items_size(items: Seq<Tree>) -> nat
    decreases items, 0nat,
{
    if items.len() == 0 {
        0
    } else {
        tree_size(items[0]) + items_size(items.skip(1))
    }
}

spec fn members_size(fs: Seq<(Seq<u16>, Tree)>) -> nat
    decreases fs, 0nat,
{
    if fs.len() == 0 {
        0
    } else {
        tree_size(fs[0].1) + members_size(fs.skip(1))
    }
}

proof fn lemma_tree_values(fs: Seq<(Seq<u16>, Tree)>)
    ensures
        members_count(fs) == items_count(tree_values(fs)),
        members_spellings(fs) == items_spellings(tree_values(fs)),
        members_size(fs) == items_size(tree_values(fs)),
    decreases fs.len(),
{
    if fs.len() > 0 {
        assert(tree_values(fs).skip(1) =~= tree_values(fs.skip(1)));
        lemma_tree_values(fs.skip(1));
    }
}

/// The trees `items`, the first on top of a stack.
spec fn stacked(items: Seq<Tree>) -> Seq<Tree> {
    Seq::new(items.len(), |k: int| items[items.len() - 1 - k])
}

proof fn lemma_stacked_step(items: Seq<Tree>, i: int)
    requires
        0 < i <= items.len(),
    ensures
        stacked(items.skip(i - 1)) == stacked(items.skip(i)).push(items[i - 1]),
{
    assert(stacked(items.skip(i - 1)) =~= stacked(items.skip(i)).push(items[i - 1]));
}

/// The spellings that a stack of trees still holds, the top first.
spec fn pending(ts: Seq<Tree>) -> Seq<Seq<u16>>
    decreases ts.len(),
{
    if ts.len() == 0 {
        Seq::empty()
    } else {
        spellings(ts.last()) + pending(ts.drop_last())
    }
}

/// The values that a stack of trees still holds.
spec fn stack_size(ts: Seq<Tree>) -> nat
    decreases ts.len(),
{
    if ts.len() == 0 {
        0
    } else {
        tree_size(ts.last()) + stack_size(ts.drop_last())
    }
}

proof fn lemma_stack_push(ts: Seq<Tree>, t: Tree)
    ensures
        pending(ts.push(t)) == spellings(t) + pending(ts),
        stack_size(ts.push(t)) == tree_size(t) + stack_size(ts),
{
    assert(ts.push(t).drop_last() =~= ts);
}

proof fn lemma_pending_stacked(base: Seq<Tree>, items: Seq<Tree>)
    ensures
        pending(base + stacked(items)) == items_spellings(items) + pending(base),
    decreases items.len(),
{
    if items.len() == 0 {
        assert(base + stacked(items) =~= base);
        assert(Seq::<Seq<u16>>::empty() + pending(base) =~= pending(base));
    } else {
        let ts = base + stacked(items);
        assert(ts.drop_last() =~= base + stacked(items.skip(1)));
        assert(ts.last() == items[0]);
        lemma_pending_stacked(base, items.skip(1));
        assert(spellings(items[0]) + (items_spellings(items.skip(1)) + pending(base)) =~= (
        spellings(items[0]) + items_spellings(items.skip(1))) + pending(base));
    }
}

/// The trees on a stack of references.
spec fn trees_of(stack: Seq<&JsonTree>) -> Seq<Tree> {
    Seq::new(stack.len(), |i: int| stack[i].model())
}

/// The spellings, as unit sequences.
pub open spec fn units_list(vs: Seq<Vec<u16>>) -> Seq<Seq<u16>> {
    Seq::new(vs.len(), |i: int| vs[i]@)
}

/// Pushes the elements of an array, the first on top.
fn push_items<'a>(stack: &mut Vec<&'a JsonTree>, items: &'a Vec<JsonTree>)
    ensures
        trees_of(final(stack)@) == trees_of(old(stack)@) + stacked(tree_items(items@)),
        stack_size(trees_of(final(stack)@)) == stack_size(trees_of(old(stack)@)) + items_size(
            tree_items(items@),
        ),
{
    let ghost all = tree_items(items@);
    let ghost base = trees_of(stack@);
    let ghost start = stack_size(base);
    let n = items.len();
    proof {
        assert(all.skip(n as int) =~= Seq::<Tree>::empty());
        assert(stacked(all.skip(n as int)) =~= Seq::<Tree>::empty());
        assert(base + Seq::<Tree>::empty() =~= base);
    }
    let mut i: usize = n;
    while i > 0
        invariant
            i <= n,
            n == items@.len(),
            all == tree_items(items@),
            trees_of(stack@) == base + stacked(all.skip(i as int)),
            stack_size(trees_of(stack@)) == start + items_size(all.skip(i as int)),
        decreases i,
    {
        proof {
            lemma_stacked_step(all, i as int);
            lemma_stack_push(trees_of(stack@), all[i - 1]);
            assert(trees_of(stack@.push(&items[i - 1])) =~= trees_of(stack@).push(all[i - 1]));
            assert((base + stacked(all.skip(i as int))).push(all[i - 1]) =~= base + stacked(
                all.skip(i as int),
            ).push(all[i - 1]));
            assert(all.skip(i - 1).skip(1) =~= all.skip(i as int));
            assert(all.skip(i - 1)[0] == all[i - 1]);
        }
        stack.push(&items[i - 1]);
        i -= 1;
    }
    proof {
        assert(all.skip(0) =~= all);
    }
}

/// Pushes the member values of an object, the first on top.
fn push_values<'a>(stack: &mut Vec<&'a JsonTree>, fields: &'a Vec<(Vec<u16>, JsonTree)>)
    ensures
        trees_of(final(stack)@) == trees_of(old(stack)@) + stacked(
            tree_values(tree_entries(fields@)),
        ),
        stack_size(trees_of(final(stack)@)) == stack_size(trees_of(old(stack)@)) + items_size(
            tree_values(tree_entries(fields@)),
        ),
{
    let ghost all = tree_values(tree_entries(fields@));
    let ghost base = trees_of(stack@);
    let ghost start = stack_size(base);
    let n = fields.len();
    proof {
        assert(all.skip(n as int) =~= Seq::<Tree>::empty());
        assert(stacked(all.skip(n as int)) =~= Seq::<Tree>::empty());
        assert(base + Seq::<Tree>::empty() =~= base);
    }
    let mut i: usize = n;
    while i > 0
        invariant
            i <= n,
            n == fields@.len(),
            all == tree_values(tree_entries(fields@)),
            trees_of(stack@) == base + stacked(all.skip(i as int)),
            stack_size(trees_of(stack@)) == start + items_size(all.skip(i as int)),
        decreases i,
    {
        proof {
            assert(all[i - 1] == fields@[i - 1].1.model());
            lemma_stacked_step(all, i as int);
            lemma_stack_push(trees_of(stack@), all[i - 1]);
            assert(trees_of(stack@.push(&fields[i - 1].1)) =~= trees_of(stack@).push(all[i - 1]));
            assert((base + stacked(all.skip(i as int))).push(all[i - 1]) =~= base + stacked(
                all.skip(i as int),
            ).push(all[i - 1]));
            assert(all.skip(i - 1).skip(1) =~= all.skip(i as int));
            assert(all.skip(i - 1)[0] == all[i - 1]);
        }
        stack.push(&fields[i - 1].1);
        i -= 1;
    }
    proof {
        assert(all.skip(0) =~= all);
    }
}

/// The spellings of the numbers in `tree`, in document order.
pub fn purust_json_spellings(tree: &JsonTree) -> (r: Vec<Vec<u16>>)
    ensures
        units_list(r@) == spellings(tree.model()),
        r@.len() == count(tree.model()),
{
    proof {
        lemma_spellings_count(tree.model());
    }
    let mut stack: Vec<&JsonTree> = Vec::new();
    let mut out: Vec<Vec<u16>> = Vec::new();
    proof {
        lemma_stack_push(trees_of(stack@), tree.model());
        assert(trees_of(stack@.push(tree)) =~= trees_of(stack@).push(tree.model()));
        assert(trees_of(stack@) =~= Seq::<Tree>::empty());
        assert(units_list(out@) =~= Seq::<Seq<u16>>::empty());
        assert(spellings(tree.model()) + Seq::<Seq<u16>>::empty() =~= spellings(tree.model()));
        assert(Seq::<Seq<u16>>::empty() + spellings(tree.model()) =~= spellings(tree.model()));
    }
    stack.push(tree);
    while stack.len() > 0
        invariant
            units_list(out@) + pending(trees_of(stack@)) == spellings(tree.model()),
        decreases stack_size(trees_of(stack@)),
    {
        let ghost ts = trees_of(stack@);
        let ghost before = units_list(out@);
        let t = stack.pop().unwrap();
        proof {
            assert(trees_of(stack@) =~= ts.drop_last());
            assert(ts.last() == t.model());
            lemma_stack_push(ts.drop_last(), t.model());
            assert(ts.drop_last().push(t.model()) =~= ts);
        }
        match t {
            JsonTree::Number(s) => {
                let u = copy_units(s.as_slice());
                proof {
                    assert(units_list(out@.push(u)) =~= before.push(s@));
                    assert(before.push(s@) + pending(ts.drop_last()) =~= before + (seq![s@]
                        + pending(ts.drop_last())));
                }
                out.push(u);
            },
            JsonTree::Array(items) => {
                let ghost rest = trees_of(stack@);
                push_items(&mut stack, items);
                proof {
                    lemma_pending_stacked(rest, tree_items(items@));
                }
            },
            JsonTree::Object(fields) => {
                let ghost rest = trees_of(stack@);
                push_values(&mut stack, fields);
                proof {
                    lemma_pending_stacked(rest, tree_values(tree_entries(fields@)));
                    lemma_tree_values(tree_entries(fields@));
                }
            },
            _ => {
                proof {
                    assert(spellings(t.model()) =~= Seq::<Seq<u16>>::empty());
                    assert(Seq::<Seq<u16>>::empty() + pending(ts.drop_last()) =~= pending(
                        ts.drop_last(),
                    ));
                }
            },
        }
    }
    proof {
        assert(units_list(out@) + Seq::<Seq<u16>>::empty() =~= units_list(out@));
    }
    out
}

proof fn lemma_spellings_count(t: Tree)
    ensures
        spellings(t).len() == count(t),
    decreases t, 1nat,
{
    match t {
        Tree::Array(items) => lemma_items_spellings_count(items),
        Tree::Object(fs) => lemma_members_spellings_count(fs),
        _ => {},
    }
}

proof fn lemma_items_spellings_count(items: Seq<Tree>)
    ensures
        items_spellings(items).len() == items_count(items),
    decreases items, 0nat,
{
    if items.len() > 0 {
        lemma_spellings_count(items[0]);
        lemma_items_spellings_count(items.skip(1));
    }
}

proof fn lemma_members_spellings_count(fs: Seq<(Seq<u16>, Tree)>)
    ensures
        members_spellings(fs).len() == members_count(fs),
    decreases fs, 0nat,
{
    if fs.len() > 0 {
        lemma_spellings_count(fs[0].1);
        lemma_members_spellings_count(fs.skip(1));
    }
}

/// The models of the numbers.
pub open spec fn numbers_model(ns: Seq<JsNumber>) -> Seq<NumberModel> {
    Seq::new(ns.len(), |i: int| ns[i]@)
}

/// The keys of the parsed members, in order.
pub open spec fn tree_keys(fs: Seq<(Seq<u16>, Tree)>) -> Seq<Seq<u16>> {
    Seq::new(fs.len(), |i: int| fs[i].0)
}

/// The value of `t` once its numbers, in document order, read as `ns`.
pub open spec fn fill(t: Tree, ns: Seq<NumberModel>) -> Json
    decreases t, 1nat,
{
    match t {
        Tree::Null => Json::Null,
        Tree::Bool(b) => Json::Bool(b),
        Tree::Number(_) => Json::Number(ns[0]),
        Tree::Str(s) => Json::Str(s),
        Tree::Array(items) => Json::Array(fill_items(items, ns)),
        Tree::Object(fs) => Json::Object(pair_up(tree_keys(fs), fill_members(fs, ns))),
    }
}

/// The values of the elements, each reading the numbers that follow those
/// of the elements before it.
pub open spec fn fill_items(items: Seq<Tree>, ns: Seq<NumberModel>) -> Seq<Json>
    decreases items, 0nat,
{
    if items.len() == 0 {
        Seq::empty()
    } else {
        seq![fill(items[0], ns)] + fill_items(items.skip(1), ns.skip(count(items[0]) as int))
    }
}

/// The values of the members, each reading the numbers that follow those
/// of the members before it.
pub open spec fn fill_members(fs: Seq<(Seq<u16>, Tree)>, ns: Seq<NumberModel>) -> Seq<Json>
    decreases fs, 0nat,
{
    if fs.len() == 0 {
        Seq::empty()
    } else {
        seq![fill(fs[0].1, ns)] + fill_members(fs.skip(1), ns.skip(count(fs[0].1) as int))
    }
}

proof fn lemma_fill_values(fs: Seq<(Seq<u16>, Tree)>, ns: Seq<NumberModel>)
    ensures
        fill_members(fs, ns) == fill_items(tree_values(fs), ns),
    decreases fs.len(),
{
    if fs.len() > 0 {
        assert(tree_values(fs).skip(1) =~= tree_values(fs.skip(1)));
        lemma_fill_values(fs.skip(1), ns.skip(count(fs[0].1) as int));
    }
}

proof fn lemma_fill_items_len(items: Seq<Tree>, ns: Seq<NumberModel>)
    ensures
        fill_items(items, ns).len() == items.len(),
    decreases items.len(),
{
    if items.len() > 0 {
        lemma_fill_items_len(items.skip(1), ns.skip(count(items[0]) as int));
    }
}

/// A pending step of the building walk: build a value, or rebuild an array
/// of `n` elements, or an object with the given keys, from the last values.
pub enum BuildTask {
    Enter(Tree),
    Array(nat),
    Object(Seq<Seq<u16>>),
}

/// The values that the walk builds from `tasks`, the last first, reading
/// numbers from `next` on, after the values `res`; `None` where the stack
/// does not fit its values or its numbers.
#[verifier::opaque]
spec fn build(tasks: Seq<BuildTask>, next: nat, ns: Seq<NumberModel>, res: Seq<Json>) -> Option<
    Seq<Json>,
>
    decreases tasks.len(),
{
    if tasks.len() == 0 {
        Some(res)
    } else {
        let rest = tasks.drop_last();
        match tasks.last() {
            BuildTask::Enter(t) => if next + count(t) <= ns.len() {
                build(rest, next + count(t), ns, res.push(fill(t, ns.skip(next as int))))
            } else {
                None
            },
            BuildTask::Array(n) => if n <= res.len() {
                let at = res.len() - n;
                build(rest, next, ns, res.take(at).push(Json::Array(res.skip(at))))
            } else {
                None
            },
            BuildTask::Object(keys) => if keys.len() <= res.len() {
                let at = res.len() - keys.len();
                build(rest, next, ns, res.take(at).push(Json::Object(pair_up(keys, res.skip(at)))))
            } else {
                None
            },
        }
    }
}

/// The tasks that build the values `items`, the first on top.
spec fn build_enters(items: Seq<Tree>) -> Seq<BuildTask> {
    Seq::new(items.len(), |k: int| BuildTask::Enter(items[items.len() - 1 - k]))
}

/// What is left of the building walk.
#[verifier::opaque]
spec fn build_weight(tasks: Seq<BuildTask>) -> nat
    decreases tasks.len(),
{
    if tasks.len() == 0 {
        0
    } else {
        build_weight(tasks.drop_last()) + match tasks.last() {
            BuildTask::Enter(t) => 2 * tree_size(t),
            _ => 1,
        }
    }
}

proof fn lemma_build_weight_push(tasks: Seq<BuildTask>, t: BuildTask)
    ensures
        build_weight(tasks.push(t)) == build_weight(tasks) + match t {
            BuildTask::Enter(v) => 2 * tree_size(v),
            _ => 1,
        },
{
    reveal(build_weight);
    assert(tasks.push(t).drop_last() =~= tasks);
}

proof fn lemma_build_enters_step(items: Seq<Tree>, i: int)
    requires
        0 < i <= items.len(),
    ensures
        build_enters(items.skip(i - 1)) == build_enters(items.skip(i)).push(
            BuildTask::Enter(items[i - 1]),
        ),
{
    assert(build_enters(items.skip(i - 1)) =~= build_enters(items.skip(i)).push(
        BuildTask::Enter(items[i - 1]),
    ));
}

proof fn lemma_build_enters(
    base: Seq<BuildTask>,
    items: Seq<Tree>,
    next: nat,
    ns: Seq<NumberModel>,
    res: Seq<Json>,
)
    requires
        next <= ns.len(),
    ensures
        build(base + build_enters(items), next, ns, res) == if next + items_count(items)
            <= ns.len() {
            build(base, next + items_count(items), ns, res + fill_items(items, ns.skip(next as int)))
        } else {
            None
        },
    decreases items.len(),
{
    reveal(build);
    if items.len() == 0 {
        assert(base + build_enters(items) =~= base);
        assert(res + Seq::<Json>::empty() =~= res);
    } else {
        let tasks = base + build_enters(items);
        let c = count(items[0]);
        assert(tasks.drop_last() =~= base + build_enters(items.skip(1)));
        assert(tasks.last() == BuildTask::Enter(items[0]));
        assert(items_count(items) == c + items_count(items.skip(1)));
        if next + c <= ns.len() {
            lemma_build_enters(
                base,
                items.skip(1),
                next + c,
                ns,
                res.push(fill(items[0], ns.skip(next as int))),
            );
            assert(build(tasks, next, ns, res) == build(
                base + build_enters(items.skip(1)),
                next + c,
                ns,
                res.push(fill(items[0], ns.skip(next as int))),
            ));
        } else {
            assert(build(tasks, next, ns, res) is None);
        }
        if next + items_count(items) <= ns.len() {
            assert(ns.skip(next as int).skip(c as int) =~= ns.skip((next + c) as int));
            assert(res.push(fill(items[0], ns.skip(next as int))) + fill_items(
                items.skip(1),
                ns.skip((next + c) as int),
            ) =~= res + fill_items(items, ns.skip(next as int)));
        }
    }
}

proof fn lemma_build_array(
    rest: Seq<BuildTask>,
    items: Seq<Tree>,
    next: nat,
    ns: Seq<NumberModel>,
    res: Seq<Json>,
)
    requires
        next <= ns.len(),
    ensures
        build(rest.push(BuildTask::Array(items.len())) + build_enters(items), next, ns, res) == build(
            rest.push(BuildTask::Enter(Tree::Array(items))),
            next,
            ns,
            res,
        ),
{
    let base = rest.push(BuildTask::Array(items.len()));
    lemma_build_enters(base, items, next, ns, res);
    lemma_fill_items_len(items, ns.skip(next as int));
    reveal(build);
    assert(base.drop_last() =~= rest);
    assert(rest.push(BuildTask::Enter(Tree::Array(items))).drop_last() =~= rest);
    let ws = fill_items(items, ns.skip(next as int));
    assert((res + ws).skip(res.len() as int) =~= ws);
    assert((res + ws).take(res.len() as int) =~= res);
}

proof fn lemma_build_object(
    rest: Seq<BuildTask>,
    fs: Seq<(Seq<u16>, Tree)>,
    next: nat,
    ns: Seq<NumberModel>,
    res: Seq<Json>,
)
    requires
        next <= ns.len(),
    ensures
        build(
            rest.push(BuildTask::Object(tree_keys(fs))) + build_enters(tree_values(fs)),
            next,
            ns,
            res,
        ) == build(rest.push(BuildTask::Enter(Tree::Object(fs))), next, ns, res),
{
    let base = rest.push(BuildTask::Object(tree_keys(fs)));
    let vals = tree_values(fs);
    lemma_build_enters(base, vals, next, ns, res);
    lemma_fill_items_len(vals, ns.skip(next as int));
    lemma_fill_values(fs, ns.skip(next as int));
    lemma_tree_values(fs);
    reveal(build);
    assert(base.drop_last() =~= rest);
    assert(rest.push(BuildTask::Enter(Tree::Object(fs))).drop_last() =~= rest);
    let ws = fill_items(vals, ns.skip(next as int));
    assert((res + ws).skip(res.len() as int) =~= ws);
    assert((res + ws).take(res.len() as int) =~= res);
}

proof fn lemma_build_step_enter(
    ts: Seq<BuildTask>,
    next: nat,
    ns: Seq<NumberModel>,
    res: Seq<Json>,
    t: Tree,
)
    requires
        ts.len() > 0,
        ts.last() == BuildTask::Enter(t),
        build(ts, next, ns, res) is Some,
    ensures
        next + count(t) <= ns.len(),
        build(ts, next, ns, res) == build(
            ts.drop_last(),
            next + count(t),
            ns,
            res.push(fill(t, ns.skip(next as int))),
        ),
{
    reveal(build);
}

proof fn lemma_build_step_array(ts: Seq<BuildTask>, next: nat, ns: Seq<NumberModel>, res: Seq<Json>, n: nat)
    requires
        ts.len() > 0,
        ts.last() == BuildTask::Array(n),
        build(ts, next, ns, res) is Some,
    ensures
        n <= res.len(),
        build(ts, next, ns, res) == build(
            ts.drop_last(),
            next,
            ns,
            res.take(res.len() - n).push(Json::Array(res.skip(res.len() - n))),
        ),
{
    reveal(build);
}

proof fn lemma_build_step_object(
    ts: Seq<BuildTask>,
    next: nat,
    ns: Seq<NumberModel>,
    res: Seq<Json>,
    keys: Seq<Seq<u16>>,
)
    requires
        ts.len() > 0,
        ts.last() == BuildTask::Object(keys),
        build(ts, next, ns, res) is Some,
    ensures
        keys.len() <= res.len(),
        build(ts, next, ns, res) == build(
            ts.drop_last(),
            next,
            ns,
            res.take(res.len() - keys.len()).push(
                Json::Object(pair_up(keys, res.skip(res.len() - keys.len()))),
            ),
        ),
{
    reveal(build);
}

/// A pending step of the building walk, as the walk holds it.
enum Build {
    Enter(JsonTree),
    Array(usize),
    Object(Vec<Vec<u16>>),
}

impl Build {
    spec fn task(&self) -> BuildTask {
        match self {
            Build::Enter(t) => BuildTask::Enter(t.model()),
            Build::Array(n) => BuildTask::Array(*n as nat),
            Build::Object(keys) => BuildTask::Object(keys_model(keys@)),
        }
    }
}

spec fn build_tasks(bs: Seq<Build>) -> Seq<BuildTask> {
    Seq::new(bs.len(), |i: int| bs[i].task())
}

proof fn lemma_build_tasks_push(bs: Seq<Build>, b: Build)
    ensures
        build_tasks(bs.push(b)) == build_tasks(bs).push(b.task()),
{
    assert(build_tasks(bs.push(b)) =~= build_tasks(bs).push(b.task()));
}

proof fn lemma_tree_items_subrange(vs: Seq<JsonTree>, a: int, b: int)
    requires
        0 <= a <= b <= vs.len(),
    ensures
        tree_items(vs.subrange(a, b)) == tree_items(vs).subrange(a, b),
{
    assert(tree_items(vs.subrange(a, b)) =~= tree_items(vs).subrange(a, b));
}

proof fn lemma_tree_entries_subrange(fs: Seq<(Vec<u16>, JsonTree)>, a: int, b: int)
    requires
        0 <= a <= b <= fs.len(),
    ensures
        tree_entries(fs.subrange(a, b)) == tree_entries(fs).subrange(a, b),
{
    assert(tree_entries(fs.subrange(a, b)) =~= tree_entries(fs).subrange(a, b));
}

/// Pushes the rebuilding of an array, then its elements, the first on top.
fn enter_items(tasks: &mut Vec<Build>, items: Vec<JsonTree>)
    ensures
        build_tasks(final(tasks)@) == build_tasks(old(tasks)@).push(
            BuildTask::Array(items@.len() as nat),
        ) + build_enters(tree_items(items@)),
        build_weight(build_tasks(final(tasks)@)) == build_weight(build_tasks(old(tasks)@)) + 1 + 2
            * items_size(tree_items(items@)),
{
    let ghost all = tree_items(items@);
    let n = items.len();
    let mut items = items;
    proof {
        lemma_build_tasks_push(tasks@, Build::Array(n));
        lemma_build_weight_push(build_tasks(tasks@), BuildTask::Array(n as nat));
    }
    let ghost base = build_tasks(tasks@).push(BuildTask::Array(n as nat));
    let ghost start = build_weight(build_tasks(tasks@)) + 1;
    tasks.push(Build::Array(n));
    proof {
        assert(all.skip(n as int) =~= Seq::<Tree>::empty());
        assert(build_enters(all.skip(n as int)) =~= Seq::<BuildTask>::empty());
        assert(base + Seq::<BuildTask>::empty() =~= base);
        assert(tree_items(items@) =~= all.take(n as int));
    }
    let mut i: usize = n;
    while i > 0
        invariant
            i <= n,
            n == all.len(),
            items@.len() == i,
            tree_items(items@) == all.take(i as int),
            build_tasks(tasks@) == base + build_enters(all.skip(i as int)),
            build_weight(build_tasks(tasks@)) == start + 2 * items_size(all.skip(i as int)),
        decreases i,
    {
        let ghost before = items@;
        let item = items.pop().unwrap();
        i -= 1;
        proof {
            lemma_tree_items_subrange(before, 0, i as int);
            assert(tree_items(items@) =~= all.take(i as int));
            assert(tree_items(before)[i as int] == all.take(i + 1)[i as int]);
            assert(item.model() == all[i as int]);
            lemma_build_enters_step(all, i as int + 1);
            lemma_build_tasks_push(tasks@, Build::Enter(item));
            lemma_build_weight_push(build_tasks(tasks@), BuildTask::Enter(item.model()));
            assert((base + build_enters(all.skip(i + 1))).push(BuildTask::Enter(item.model())) =~= base
                + build_enters(all.skip(i + 1)).push(BuildTask::Enter(item.model())));
            assert(all.skip(i as int).skip(1) =~= all.skip(i + 1));
            assert(all.skip(i as int)[0] == all[i as int]);
        }
        tasks.push(Build::Enter(item));
    }
    proof {
        assert(all.skip(0) =~= all);
    }
}

/// Pushes the rebuilding of an object, then its member values, the first
/// on top.
fn enter_fields(tasks: &mut Vec<Build>, fields: Vec<(Vec<u16>, JsonTree)>)
    ensures
        build_tasks(final(tasks)@) == build_tasks(old(tasks)@).push(
            BuildTask::Object(tree_keys(tree_entries(fields@))),
        ) + build_enters(tree_values(tree_entries(fields@))),
        build_weight(build_tasks(final(tasks)@)) == build_weight(build_tasks(old(tasks)@)) + 1 + 2
            * items_size(tree_values(tree_entries(fields@))),
{
    let ghost fs = tree_entries(fields@);
    let ghost all = tree_values(fs);
    let n = fields.len();
    let mut keys: Vec<Vec<u16>> = Vec::new();
    let mut j: usize = 0;
    while j < n
        invariant
            n == fields@.len(),
            fs == tree_entries(fields@),
            j <= n,
            keys@.len() == j,
            keys_model(keys@) == tree_keys(fs).take(j as int),
        decreases n - j,
    {
        let k = copy_units(fields[j].0.as_slice());
        proof {
            assert(tree_keys(fs)[j as int] == k@);
            assert forall|m: int| 0 <= m < j implies #[trigger] keys_model(keys@.push(k))[m]
                == tree_keys(fs)[m] by {
                assert(keys_model(keys@)[m] == tree_keys(fs).take(j as int)[m]);
            }
            assert(keys_model(keys@.push(k)) =~= tree_keys(fs).take(j + 1));
        }
        keys.push(k);
        j += 1;
    }
    proof {
        assert(tree_keys(fs).take(n as int) =~= tree_keys(fs));
        lemma_build_tasks_push(tasks@, Build::Object(keys));
        lemma_build_weight_push(build_tasks(tasks@), BuildTask::Object(tree_keys(fs)));
    }
    let ghost base = build_tasks(tasks@).push(BuildTask::Object(tree_keys(fs)));
    let ghost start = build_weight(build_tasks(tasks@)) + 1;
    tasks.push(Build::Object(keys));
    let mut fields = fields;
    proof {
        assert(all.skip(n as int) =~= Seq::<Tree>::empty());
        assert(build_enters(all.skip(n as int)) =~= Seq::<BuildTask>::empty());
        assert(base + Seq::<BuildTask>::empty() =~= base);
        assert(fs.take(n as int) =~= fs);
    }
    let mut i: usize = n;
    while i > 0
        invariant
            i <= n,
            n == fs.len(),
            all == tree_values(fs),
            fields@.len() == i,
            tree_entries(fields@) == fs.take(i as int),
            build_tasks(tasks@) == base + build_enters(all.skip(i as int)),
            build_weight(build_tasks(tasks@)) == start + 2 * items_size(all.skip(i as int)),
        decreases i,
    {
        let ghost before = fields@;
        let (k, v) = fields.pop().unwrap();
        i -= 1;
        proof {
            lemma_tree_entries_subrange(before, 0, i as int);
            assert(tree_entries(fields@) =~= fs.take(i as int));
            assert(tree_entries(before)[i as int] == fs.take(i + 1)[i as int]);
            assert(before[i as int] == (k, v));
            assert(v.model() == all[i as int]);
            lemma_build_enters_step(all, i as int + 1);
            lemma_build_tasks_push(tasks@, Build::Enter(v));
            lemma_build_weight_push(build_tasks(tasks@), BuildTask::Enter(v.model()));
            assert((base + build_enters(all.skip(i + 1))).push(BuildTask::Enter(v.model())) =~= base
                + build_enters(all.skip(i + 1)).push(BuildTask::Enter(v.model())));
            assert(all.skip(i as int).skip(1) =~= all.skip(i + 1));
            assert(all.skip(i as int)[0] == all[i as int]);
        }
        tasks.push(Build::Enter(v));
    }
    proof {
        assert(all.skip(0) =~= all);
        lemma_tree_values(fs);
    }
}

/// A copy of a number.
fn copy_number(n: &JsNumber) -> (r: JsNumber)
    ensures
        r@ == n@,
{
    JsNumber {
        text: copy_units(n.text.as_slice()),
        finite: n.finite,
        integral: match &n.integral {
            Some(t) => Some(copy_units(t.as_slice())),
            None => None,
        },
    }
}

/// The value of `tree` once its numbers, in document order, read as
/// `numbers`: the caller reads each spelling that `purust_json_spellings`
/// gives as a double.
pub fn purust_json_value(tree: JsonTree, numbers: &Vec<JsNumber>) -> (r: JsValue)
    requires
        numbers@.len() == count(tree.model()),
    ensures
        r.model() == fill(tree.model(), numbers_model(numbers@)),
{
    let ghost root = tree.model();
    let ghost ns = numbers_model(numbers@);
    let mut tasks: Vec<Build> = Vec::new();
    let mut results: Vec<JsValue> = Vec::new();
    let mut next: usize = 0;
    let total = numbers.len();
    let first = Build::Enter(tree);
    proof {
        reveal(build);
        lemma_build_tasks_push(tasks@, first);
        assert(build_tasks(tasks@) =~= Seq::<BuildTask>::empty());
        let ts = build_tasks(tasks@.push(first));
        assert(ts.drop_last() =~= Seq::<BuildTask>::empty());
        assert(values_model(results@) =~= Seq::<Json>::empty());
        assert(ns.skip(0) =~= ns);
        assert(Seq::<Json>::empty().push(fill(root, ns)) =~= seq![fill(root, ns)]);
        assert(build(Seq::<BuildTask>::empty(), count(root), ns, seq![fill(root, ns)]) == Some(
            seq![fill(root, ns)],
        ));
    }
    tasks.push(first);
    while tasks.len() > 0
        invariant
            ns == numbers_model(numbers@),
            total == numbers@.len(),
            next <= numbers@.len(),
            build(build_tasks(tasks@), next as nat, ns, values_model(results@)) == Some(
                seq![fill(root, ns)],
            ),
        decreases build_weight(build_tasks(tasks@)),
    {
        let ghost ts = build_tasks(tasks@);
        let ghost res = values_model(results@);
        let ghost rest = ts.drop_last();
        let task = tasks.pop().unwrap();
        proof {
            assert(build_tasks(tasks@) =~= rest);
            assert(ts.last() == task.task());
            assert(rest.push(task.task()) =~= ts);
            lemma_build_weight_push(rest, task.task());
        }
        match task {
            Build::Enter(t) => {
                match t {
                    JsonTree::Array(items) => {
                        proof {
                            lemma_build_array(rest, tree_items(items@), next as nat, ns, res);
                        }
                        enter_items(&mut tasks, items);
                    },
                    JsonTree::Object(fields) => {
                        proof {
                            lemma_build_object(rest, tree_entries(fields@), next as nat, ns, res);
                            lemma_tree_values(tree_entries(fields@));
                        }
                        enter_fields(&mut tasks, fields);
                    },
                    JsonTree::Number(spelling) => {
                        proof {
                            lemma_build_step_enter(ts, next as nat, ns, res, Tree::Number(spelling@));
                        }
                        let n = copy_number(&numbers[next]);
                        next += 1;
                        let w = JsValue::Number(n);
                        proof {
                            assert(ns.skip(next - 1)[0] == ns[next - 1]);
                            assert(values_model(results@.push(w)) =~= res.push(w.model()));
                        }
                        results.push(w);
                    },
                    t => {
                        let ghost tm = t.model();
                        proof {
                            lemma_build_step_enter(ts, next as nat, ns, res, tm);
                        }
                        let w = match t {
                            JsonTree::Bool(b) => JsValue::Bool(b),
                            JsonTree::Str(s) => JsValue::Str(s),
                            _ => JsValue::Null,
                        };
                        proof {
                            assert(w.model() == fill(tm, ns.skip(next as int)));
                            assert(values_model(results@.push(w)) =~= res.push(w.model()));
                        }
                        results.push(w);
                    },
                }
            },
            Build::Array(n) => {
                proof {
                    lemma_build_step_array(ts, next as nat, ns, res, n as nat);
                }
                let ghost rb = results@;
                let at = results.len() - n;
                let items = results.split_off(at);
                proof {
                    lemma_values_model_subrange(rb, 0, at as int);
                    lemma_values_model_subrange(rb, at as int, rb.len() as int);
                    assert(values_model(items@) =~= res.skip(at as int));
                    assert(values_model(results@) =~= res.take(at as int));
                }
                let w = JsValue::Array(items);
                proof {
                    assert(values_model(results@.push(w)) =~= res.take(at as int).push(w.model()));
                }
                results.push(w);
            },
            Build::Object(keys) => {
                proof {
                    lemma_build_step_object(ts, next as nat, ns, res, keys_model(keys@));
                }
                let ghost rb = results@;
                let at = results.len() - keys.len();
                let items = results.split_off(at);
                proof {
                    lemma_values_model_subrange(rb, 0, at as int);
                    lemma_values_model_subrange(rb, at as int, rb.len() as int);
                    assert(values_model(items@) =~= res.skip(at as int));
                    assert(values_model(results@) =~= res.take(at as int));
                }
                let entries = pair_members(keys, items);
                let w = JsValue::Object(entries);
                proof {
                    assert(values_model(results@.push(w)) =~= res.take(at as int).push(w.model()));
                }
                results.push(w);
            },
        }
    }
    proof {
        reveal(build);
        assert(build_tasks(tasks@) =~= Seq::<BuildTask>::empty());
        let res = values_model(results@);
        assert(build(Seq::<BuildTask>::empty(), next as nat, ns, res) == Some(res));
        assert(res == seq![fill(root, ns)]);
        assert(results@.len() == 1);
        assert(results@[0].model() == res[0]);
    }
    results.pop().unwrap()
}

/// Every number of `ns` is well formed.
pub open spec fn numbers_wf_all(ns: Seq<NumberModel>) -> bool {
    forall|i: int| 0 <= i < ns.len() ==> number_wf(#[trigger] ns[i])
}

proof fn lemma_numbers_skip(ns: Seq<NumberModel>, c: int)
    requires
        numbers_wf_all(ns),
        0 <= c <= ns.len(),
    ensures
        numbers_wf_all(ns.skip(c)),
{
    assert forall|i: int| 0 <= i < ns.skip(c).len() implies number_wf(#[trigger] ns.skip(c)[i]) by {
        assert(ns.skip(c)[i] == ns[c + i]);
    }
}

pub(crate) proof fn lemma_all_items_parsed(vs: Seq<Json>)
    requires
        forall|k: int| 0 <= k < vs.len() ==> parsed(#[trigger] vs[k]),
    ensures
        items_parsed(vs),
    decreases vs.len(),
{
    if vs.len() > 0 {
        assert(parsed(vs[vs.len() - 1]));
        assert forall|k: int| 0 <= k < vs.drop_last().len() implies parsed(
            #[trigger] vs.drop_last()[k],
        ) by {
            assert(vs.drop_last()[k] == vs[k]);
        }
        lemma_all_items_parsed(vs.drop_last());
    }
}

pub(crate) proof fn lemma_all_members_parsed(fs: Seq<(Seq<u16>, Json)>)
    requires
        forall|k: int| 0 <= k < fs.len() ==> parsed(#[trigger] fs[k].1),
    ensures
        members_parsed(fs),
    decreases fs.len(),
{
    if fs.len() > 0 {
        assert(parsed(fs[fs.len() - 1].1));
        assert forall|k: int| 0 <= k < fs.drop_last().len() implies parsed(
            #[trigger] fs.drop_last()[k].1,
        ) by {
            assert(fs.drop_last()[k] == fs[k]);
        }
        lemma_all_members_parsed(fs.drop_last());
    }
}

/// A tree whose numbers read as well formed numbers gives a decoded value.
proof fn lemma_fill_parsed(t: Tree, ns: Seq<NumberModel>)
    requires
        count(t) <= ns.len(),
        numbers_wf_all(ns),
    ensures
        parsed(fill(t, ns)),
    decreases t, 1nat,
{
    match t {
        Tree::Number(_) => {
            assert(number_wf(ns[0]));
        },
        Tree::Array(items) => {
            lemma_fill_items_parsed(items, ns);
            lemma_all_items_parsed(fill_items(items, ns));
        },
        Tree::Object(fs) => {
            lemma_fill_members_parsed(fs, ns);
            let ms = pair_up(tree_keys(fs), fill_members(fs, ns));
            assert forall|k: int| 0 <= k < ms.len() implies parsed(#[trigger] ms[k].1) by {
                assert(ms[k].1 == fill_members(fs, ns)[k]);
            }
            lemma_all_members_parsed(ms);
        },
        _ => {},
    }
}

proof fn lemma_fill_items_parsed(items: Seq<Tree>, ns: Seq<NumberModel>)
    requires
        items_count(items) <= ns.len(),
        numbers_wf_all(ns),
    ensures
        fill_items(items, ns).len() == items.len(),
        forall|k: int| 0 <= k < items.len() ==> parsed(#[trigger] fill_items(items, ns)[k]),
    decreases items, 0nat,
{
    if items.len() > 0 {
        let c = count(items[0]);
        lemma_fill_parsed(items[0], ns);
        lemma_numbers_skip(ns, c as int);
        lemma_fill_items_parsed(items.skip(1), ns.skip(c as int));
        let fi = fill_items(items, ns);
        assert forall|k: int| 0 <= k < items.len() implies parsed(#[trigger] fill_items(items, ns)[k]) by {
            if k > 0 {
                assert(fi[k] == fill_items(items.skip(1), ns.skip(c as int))[k - 1]);
            }
        }
    }
}

proof fn lemma_fill_members_parsed(fs: Seq<(Seq<u16>, Tree)>, ns: Seq<NumberModel>)
    requires
        members_count(fs) <= ns.len(),
        numbers_wf_all(ns),
    ensures
        fill_members(fs, ns).len() == fs.len(),
        forall|k: int| 0 <= k < fs.len() ==> parsed(#[trigger] fill_members(fs, ns)[k]),
    decreases fs, 0nat,
{
    if fs.len() > 0 {
        let c = count(fs[0].1);
        lemma_fill_parsed(fs[0].1, ns);
        lemma_numbers_skip(ns, c as int);
        lemma_fill_members_parsed(fs.skip(1), ns.skip(c as int));
        let fm = fill_members(fs, ns);
        assert forall|k: int| 0 <= k < fs.len() implies parsed(#[trigger] fill_members(fs, ns)[k]) by {
            if k > 0 {
                assert(fm[k] == fill_members(fs.skip(1), ns.skip(c as int))[k - 1]);
            }
        }
    }
}

/// The decoded value of a parse tree: its numbers, in document order, read
/// as `numbers`, then the reviver applied.
pub fn purust_json_decode(tree: JsonTree, numbers: &Vec<JsNumber>) -> (r: Result<JsValue, JsonError>)
    requires
        numbers@.len() == count(tree.model()),
        numbers_wf_all(numbers_model(numbers@)),
    ensures
        match revive(Seq::empty(), fill(tree.model(), numbers_model(numbers@))) {
            Ok(w) => r matches Ok(x) && x.model() == w,
            Err(e) => r matches Err(x) && x@ == e,
        },
{
    proof {
        lemma_fill_parsed(tree.model(), numbers_model(numbers@));
    }
    let value = purust_json_value(tree, numbers);
    purust_json_revive(value)
}

} // verus!
