//! The interned content registry: id lookups and crafting-graph queries.

use vstd::prelude::*;
use crate::content::types::{ItemKind, RuntimeItem, RuntimeRecipe, RuntimeTech};
use crate::sim::{BuildingKind, Item};
use crate::perf_log::truncate;
use crate::content::pack::{last_segment, last_segment_of, lemma_last_segment_bytes};
use vstd::utf8::{encode_utf8, is_char_boundary};
use crate::text::{contains_run, dedup, lemma_dedup_contains, lemma_dedup_push, str_contains, str_eq, vec_has_pair, vec_has_u16};

verus! {

#[derive(Clone, Copy, Debug)]
pub struct ContentStats {
    pub items: usize,
    pub fluids: usize,
    pub recipes: usize,
    pub machines: usize,
    pub technologies: usize,
}

/// One row in a Helmod-style nested production tree.
#[derive(Clone, Debug)]
pub struct ProductionTreeRow {
    pub item: u16,
    pub recipe: Option<u16>,
    pub depth: u32,
    pub is_last: bool,
    /// For each ancestor depth, whether a vertical continuation line should be drawn.
    pub ancestor_open: Vec<bool>,
    pub cyclic: bool,
}

/// A tree row as plain values: item, recipe, depth, last-child flag,
/// continuation lines, cycle flag.
pub type RowSpec = (u16, Option<u16>, nat, bool, Seq<bool>, bool);

pub open spec fn row_spec(r: ProductionTreeRow) -> RowSpec {
    (r.item, r.recipe, r.depth as nat, r.is_last, r.ancestor_open@, r.cyclic)
}

pub open spec fn rows_spec(rows: Seq<ProductionTreeRow>) -> Seq<RowSpec> {
    rows.map_values(|r: ProductionTreeRow| row_spec(r))
}

/// Interned Era 1 content. Items and techs sit at their index; recipe `k`
/// sits at position `k - 1` (index 0 means "idle").
pub struct ContentRegistry {
    pub items: Vec<RuntimeItem>,
    pub recipes: Vec<RuntimeRecipe>,
    pub machine_ids: Vec<String>,
    pub techs: Vec<RuntimeTech>,
    pub stats: ContentStats,
    pub validation_errors: Vec<String>,
}

/// Shown in the full recipe-tree viewer: makes something from inputs or by
/// extraction.
pub open spec fn spec_is_viewer(r: RuntimeRecipe) -> bool {
    r.outputs@.len() > 0 && (r.inputs@.len() > 0 || r.extracts is Some)
}

/// `item` comes out of `r`, as a product or as waste.
pub open spec fn yields(r: RuntimeRecipe, item: u16) -> bool {
    r.outputs@.contains(item) || r.waste@.contains(item)
}

/// Indices of the recipes that `keep` selects, in table order.
pub open spec fn recipe_indices(recs: Seq<RuntimeRecipe>, keep: spec_fn(RuntimeRecipe) -> bool) -> Seq<u16>
    decreases recs.len(),
{
    if recs.len() == 0 {
        Seq::empty()
    } else {
        let rest = recipe_indices(recs.drop_last(), keep);
        if keep(recs.last()) {
            rest.push(recs.last().index)
        } else {
            rest
        }
    }
}

pub open spec fn in_category(c: Seq<char>) -> spec_fn(RuntimeRecipe) -> bool {
    |r: RuntimeRecipe| r.category@ == c
}

pub open spec fn for_machine(m: Seq<char>) -> spec_fn(RuntimeRecipe) -> bool {
    |r: RuntimeRecipe| r.machine@ == m
}

/// Recipe indices of each category in turn, categories in the given order.
pub open spec fn category_runs(recs: Seq<RuntimeRecipe>, cats: Seq<String>) -> Seq<u16>
    decreases cats.len(),
{
    if cats.len() == 0 {
        Seq::empty()
    } else {
        category_runs(recs, cats.drop_last()) + recipe_indices(recs, in_category(cats.last()@))
    }
}

/// Pack item id of the science item a cost key names.
pub open spec fn science_id(key: Seq<char>) -> Seq<char> {
    if key == "engineering_data"@ {
        "era1_science_engineering_data"@
    } else if key == "chemical_data"@ {
        "era1_science_chemical_data"@
    } else if key == "computational_data"@ {
        "era1_science_computational_data"@
    } else if key == "defense_data"@ {
        "era1_science_defense_data"@
    } else {
        key
    }
}

/// How strongly `r` is preferred as "the" recipe for `item`: a real product
/// beats a waste side-product, bridges and recovery loops rank lower,
/// extraction ranks higher, and fewer inputs win ties.
pub open spec fn recipe_score(r: RuntimeRecipe, item: u16) -> int {
    (if r.outputs@.contains(item) { 100int } else { 0int })
        - (if r.waste@.contains(item) { 40int } else { 0int })
        - (if contains_run(r.id@, "bridge_"@) { 20int } else { 0int })
        - (if contains_run(r.id@, "recovery_"@) { 50int } else { 0int })
        + (if r.extracts is Some { 30int } else { 0int })
        - r.inputs@.len()
}

pub open spec fn best_candidate(r: RuntimeRecipe, item: u16) -> bool {
    spec_is_viewer(r) && yields(r, item)
}

/// Position of the first highest-scoring candidate among the first `k` recipes.
pub open spec fn best_upto(recs: Seq<RuntimeRecipe>, item: u16, k: int) -> Option<int>
    decreases k,
{
    if k <= 0 {
        None
    } else {
        let b = best_upto(recs, item, k - 1);
        if best_candidate(recs[k - 1], item) && (b is None || recipe_score(recs[k - 1], item) > recipe_score(
            recs[b->0],
            item,
        )) {
            Some(k - 1)
        } else {
            b
        }
    }
}

/// Edges `(p, r)` from each viewer recipe among the first `q` that yields
/// `item` into recipe `r` (self-loops left out).
pub open spec fn prod_edges(recs: Seq<RuntimeRecipe>, r: RuntimeRecipe, item: u16, q: int) -> Seq<(u16, u16)>
    decreases q,
{
    if q <= 0 {
        Seq::empty()
    } else {
        prod_edges(recs, r, item, q - 1) + if spec_is_viewer(recs[q - 1]) && yields(recs[q - 1], item)
            && recs[q - 1].index != r.index {
            seq![(recs[q - 1].index, r.index)]
        } else {
            Seq::empty()
        }
    }
}

/// Producer edges for the first `m` inputs of `r`.
pub open spec fn input_edges(recs: Seq<RuntimeRecipe>, r: RuntimeRecipe, m: int) -> Seq<(u16, u16)>
    decreases m,
{
    if m <= 0 {
        Seq::empty()
    } else {
        input_edges(recs, r, m - 1) + prod_edges(recs, r, r.inputs@[m - 1], recs.len() as int)
    }
}

/// Producer edges into each of the first `k` viewer recipes, in order.
pub open spec fn raw_edges(recs: Seq<RuntimeRecipe>, k: int) -> Seq<(u16, u16)>
    decreases k,
{
    if k <= 0 {
        Seq::empty()
    } else {
        raw_edges(recs, k - 1) + if spec_is_viewer(recs[k - 1]) {
            input_edges(recs, recs[k - 1], recs[k - 1].inputs@.len() as int)
        } else {
            Seq::empty()
        }
    }
}

/// Rows of the production tree below `item`, appended to `rows`: stop at
/// `max` rows or below depth 24; an item already on the path is shown as a
/// cyclic leaf; otherwise the item's best recipe is listed and its inputs
/// follow one level deeper.
pub open spec fn tree_walk(
    recs: Seq<RuntimeRecipe>,
    item: u16,
    depth: nat,
    is_last: bool,
    open: Seq<bool>,
    path: Seq<u16>,
    rows: Seq<RowSpec>,
    max: nat,
) -> Seq<RowSpec>
    decreases 26 - depth, 0int, 0int,
{
    if rows.len() >= max || depth > 24 {
        rows
    } else if path.contains(item) {
        rows.push((item, None, depth, is_last, open, true))
    } else {
        match best_upto(recs, item, recs.len() as int) {
            None => rows.push((item, None, depth, is_last, open, false)),
            Some(b) => tree_children(
                recs,
                recs[b].inputs@,
                0,
                depth + 1,
                open.push(!is_last),
                path.push(item),
                rows.push((item, Some(recs[b].index), depth, is_last, open, false)),
                max,
            ),
        }
    }
}

/// Subtrees of `inputs[i..]`, one after the other, at `depth`.
pub open spec fn tree_children(
    recs: Seq<RuntimeRecipe>,
    inputs: Seq<u16>,
    i: nat,
    depth: nat,
    open: Seq<bool>,
    path: Seq<u16>,
    rows: Seq<RowSpec>,
    max: nat,
) -> Seq<RowSpec>
    decreases 26 - depth, 1int, inputs.len() - i,
{
    if i >= inputs.len() {
        rows
    } else {
        tree_children(
            recs,
            inputs,
            i + 1,
            depth,
            open,
            path,
            tree_walk(recs, inputs[i as int], depth, i + 1 == inputs.len(), open, path, rows, max),
            max,
        )
    }
}

/// Two consecutive tree rows: the second is no deeper than the first, or
/// it is the first child of a row that lists a recipe and is no cycle.
pub open spec fn step_ok(a: RowSpec, b: RowSpec) -> bool {
    b.2 <= a.2 || (a.1 is Some && !a.5 && b.2 == a.2 + 1)
}

/// Rows nest as a tree listed parent first: only a recipe row is followed by
/// a deeper row, and then by one exactly one level deeper.
pub open spec fn rows_nest(rows: Seq<RowSpec>) -> bool {
    forall|i: int, j: int| #![trigger rows[i], rows[j]] 0 <= i && j == i + 1 && j < rows.len() ==> step_ok(rows[i], rows[j])
}

/// A row at `depth` may follow `rows`.
pub open spec fn entry_ok(rows: Seq<RowSpec>, depth: nat) -> bool {
    rows.len() == 0 || step_ok(rows.last(), (0u16, None, depth, false, Seq::empty(), false))
}

/// What a walk adds to `rows`, given `out` it returned: `rows` stays in
/// front, at most `max` rows when there were at most `max`, every new row is
/// at least `depth` and at most 24 deep, a cyclic row lists no recipe, and
/// the rows keep nesting.
pub open spec fn walk_extends(rows: Seq<RowSpec>, out: Seq<RowSpec>, depth: nat, max: nat) -> bool {
    &&& out.len() >= rows.len()
    &&& out.subrange(0, rows.len() as int) == rows
    &&& rows.len() <= max ==> out.len() <= max
    &&& forall|k: int| rows.len() <= k < out.len() ==> depth <= #[trigger] out[k].2 <= 24
    &&& forall|k: int| rows.len() <= k < out.len() && #[trigger] out[k].5 ==> out[k].1 is None
    &&& rows_nest(rows) && entry_ok(rows, depth) ==> rows_nest(out)
}

proof fn lemma_walk(
    recs: Seq<RuntimeRecipe>,
    item: u16,
    depth: nat,
    is_last: bool,
    open: Seq<bool>,
    path: Seq<u16>,
    rows: Seq<RowSpec>,
    max: nat,
)
    ensures
        walk_extends(rows, tree_walk(recs, item, depth, is_last, open, path, rows, max), depth, max),
    decreases 26 - depth, 0int, 0int,
{
    let out = tree_walk(recs, item, depth, is_last, open, path, rows, max);
    if rows.len() >= max || depth > 24 {
        assert(out.subrange(0, rows.len() as int) =~= rows);
    } else if path.contains(item) || best_upto(recs, item, recs.len() as int) is None {
        assert(out.subrange(0, rows.len() as int) =~= rows);
        if rows_nest(rows) && entry_ok(rows, depth) {
            assert forall|i: int, j: int| #![trigger out[i], out[j]] 0 <= i && j == i + 1 && j < out.len() implies step_ok(out[i], out[j]) by {
                if j < rows.len() {
                    assert(out[i] == rows[i] && out[j] == rows[j]);
                } else {
                    assert(out[i] == rows.last());
                }
            }
        }
    } else {
        let b = best_upto(recs, item, recs.len() as int)->0;
        let row: RowSpec = (item, Some(recs[b].index), depth, is_last, open, false);
        let r1 = rows.push(row);
        lemma_children(recs, recs[b].inputs@, 0, depth + 1, open.push(!is_last), path.push(item), r1, max);
        assert(out == tree_children(recs, recs[b].inputs@, 0, depth + 1, open.push(!is_last), path.push(item), r1, max));
        assert(out.subrange(0, r1.len() as int) == r1);
        assert(out.subrange(0, rows.len() as int) =~= r1.subrange(0, rows.len() as int));
        assert(r1.subrange(0, rows.len() as int) =~= rows);
        assert forall|k: int| rows.len() <= k < out.len() implies depth <= #[trigger] out[k].2 <= 24 by {
            if k == rows.len() {
                assert(out[k] == out.subrange(0, r1.len() as int)[k]);
            }
        }
        assert forall|k: int| rows.len() <= k < out.len() && #[trigger] out[k].5 implies out[k].1 is None by {
            if k == rows.len() {
                assert(out[k] == out.subrange(0, r1.len() as int)[k]);
            }
        }
        if rows_nest(rows) && entry_ok(rows, depth) {
            assert forall|i: int, j: int| #![trigger r1[i], r1[j]] 0 <= i && j == i + 1 && j < r1.len() implies step_ok(r1[i], r1[j]) by {
                if j < rows.len() {
                    assert(r1[i] == rows[i] && r1[j] == rows[j]);
                } else {
                    assert(r1[i] == rows.last());
                }
            }
            assert(entry_ok(r1, depth + 1));
        }
    }
}

proof fn lemma_children(
    recs: Seq<RuntimeRecipe>,
    inputs: Seq<u16>,
    i: nat,
    depth: nat,
    open: Seq<bool>,
    path: Seq<u16>,
    rows: Seq<RowSpec>,
    max: nat,
)
    ensures
        walk_extends(rows, tree_children(recs, inputs, i, depth, open, path, rows, max), depth, max),
        ({
            let out = tree_children(recs, inputs, i, depth, open, path, rows, max);
            entry_ok(rows, depth) ==> entry_ok(out, depth)
        }),
    decreases 26 - depth, 1int, inputs.len() - i,
{
    let out = tree_children(recs, inputs, i, depth, open, path, rows, max);
    if i >= inputs.len() {
        assert(out.subrange(0, rows.len() as int) =~= rows);
    } else {
        let mid = tree_walk(recs, inputs[i as int], depth, i + 1 == inputs.len(), open, path, rows, max);
        lemma_walk(recs, inputs[i as int], depth, i + 1 == inputs.len(), open, path, rows, max);
        lemma_children(recs, inputs, i + 1, depth, open, path, mid, max);
        assert(out == tree_children(recs, inputs, i + 1, depth, open, path, mid, max));
        assert(out.subrange(0, rows.len() as int) =~= out.subrange(0, mid.len() as int).subrange(0, rows.len() as int));
        assert forall|k: int| rows.len() <= k < out.len() implies depth <= #[trigger] out[k].2 <= 24 by {
            if k < mid.len() {
                assert(out[k] == out.subrange(0, mid.len() as int)[k]);
            }
        }
        assert forall|k: int| rows.len() <= k < out.len() && #[trigger] out[k].5 implies out[k].1 is None by {
            if k < mid.len() {
                assert(out[k] == out.subrange(0, mid.len() as int)[k]);
            }
        }
        if entry_ok(rows, depth) {
            if mid.len() > rows.len() {
                assert(mid.last() == mid[mid.len() - 1]);
                assert(mid[mid.len() - 1].2 >= depth);
            } else {
                assert(mid =~= rows);
            }
            assert(entry_ok(mid, depth));
        }
    }
}

/// A walk with room left (fewer than `max` rows so far, depth at most 24)
/// lists its item next, at its depth, with its last-child flag and the open
/// ancestor lines: as a cyclic leaf when the item is already on the path,
/// as a leaf with no recipe when nothing yields it (a raw input), and
/// otherwise with its best recipe; every row after it in the walk is
/// deeper, and a leaf's walk adds that one row only.
pub proof fn lemma_walk_lists_item(
    recs: Seq<RuntimeRecipe>,
    item: u16,
    depth: nat,
    is_last: bool,
    open: Seq<bool>,
    path: Seq<u16>,
    rows: Seq<RowSpec>,
    max: nat,
)
    requires
        rows.len() < max,
        depth <= 24,
    ensures
        ({
            let out = tree_walk(recs, item, depth, is_last, open, path, rows, max);
            let rec = if path.contains(item) {
                None
            } else {
                match best_upto(recs, item, recs.len() as int) {
                    Some(b) => Some(recs[b].index),
                    None => None,
                }
            };
            &&& out.len() > rows.len()
            &&& out[rows.len() as int] == (item, rec, depth, is_last, open, path.contains(item))
            &&& forall|k: int| rows.len() < k < out.len() ==> #[trigger] out[k].2 > depth
            &&& rec is None ==> out.len() == rows.len() + 1
        }),
{
    let out = tree_walk(recs, item, depth, is_last, open, path, rows, max);
    if path.contains(item) || best_upto(recs, item, recs.len() as int) is None {
    } else {
        let b = best_upto(recs, item, recs.len() as int)->0;
        let row: RowSpec = (item, Some(recs[b].index), depth, is_last, open, false);
        let r1 = rows.push(row);
        lemma_children(recs, recs[b].inputs@, 0, depth + 1, open.push(!is_last), path.push(item), r1, max);
        assert(out.subrange(0, r1.len() as int) == r1);
        assert(out[rows.len() as int] == out.subrange(0, r1.len() as int)[rows.len() as int]);
        assert forall|k: int| rows.len() < k < out.len() implies #[trigger] out[k].2 > depth by {
            assert(r1.len() <= k);
        }
    }
}

/// Items of the rows at depth `d`, in order.
pub open spec fn depth_items(rows: Seq<RowSpec>, d: nat) -> Seq<u16>
    decreases rows.len(),
{
    if rows.len() == 0 {
        Seq::empty()
    } else {
        depth_items(rows.drop_last(), d) + if rows.last().2 == d {
            seq![rows.last().0]
        } else {
            Seq::empty()
        }
    }
}

proof fn lemma_depth_items_concat(a: Seq<RowSpec>, b: Seq<RowSpec>, d: nat)
    ensures
        depth_items(a + b, d) == depth_items(a, d) + depth_items(b, d),
    decreases b.len(),
{
    if b.len() == 0 {
        assert(a + b =~= a);
        assert(depth_items(a, d) + depth_items(b, d) =~= depth_items(a, d));
    } else {
        lemma_depth_items_concat(a, b.drop_last(), d);
        assert((a + b).drop_last() =~= a + b.drop_last());
        assert((a + b).last() == b.last());
        assert(depth_items(a, d) + depth_items(b.drop_last(), d) + (if b.last().2 == d {
            seq![b.last().0]
        } else {
            Seq::empty()
        }) =~= depth_items(a, d) + (depth_items(b.drop_last(), d) + (if b.last().2 == d {
            seq![b.last().0]
        } else {
            Seq::empty()
        })));
    }
}

proof fn lemma_depth_items_none(s: Seq<RowSpec>, d: nat)
    requires
        forall|k: int| 0 <= k < s.len() ==> #[trigger] s[k].2 != d,
    ensures
        depth_items(s, d) == Seq::<u16>::empty(),
    decreases s.len(),
{
    if s.len() > 0 {
        lemma_depth_items_none(s.drop_last(), d);
        assert(s.last() == s[s.len() - 1]);
        assert(depth_items(s, d) =~= Seq::<u16>::empty());
    }
}

/// When the row budget is never reached, the rows that `tree_children`
/// adds at its own depth are exactly the inputs from `i` on, in order: each
/// input gets one row there, raw inputs included.
pub proof fn lemma_children_list_inputs(
    recs: Seq<RuntimeRecipe>,
    inputs: Seq<u16>,
    i: nat,
    depth: nat,
    open: Seq<bool>,
    path: Seq<u16>,
    rows: Seq<RowSpec>,
    max: nat,
)
    requires
        i <= inputs.len(),
        depth <= 24,
        tree_children(recs, inputs, i, depth, open, path, rows, max).len() < max,
    ensures
        ({
            let out = tree_children(recs, inputs, i, depth, open, path, rows, max);
            depth_items(out.subrange(rows.len() as int, out.len() as int), depth) == inputs.subrange(
                i as int,
                inputs.len() as int,
            )
        }),
    decreases inputs.len() - i,
{
    let out = tree_children(recs, inputs, i, depth, open, path, rows, max);
    lemma_children(recs, inputs, i, depth, open, path, rows, max);
    if i >= inputs.len() {
        assert(out.subrange(rows.len() as int, out.len() as int) =~= Seq::<RowSpec>::empty());
        assert(depth_items(Seq::<RowSpec>::empty(), depth) =~= Seq::<u16>::empty());
        assert(inputs.subrange(i as int, inputs.len() as int) =~= Seq::<u16>::empty());
    } else {
        let last = i + 1 == inputs.len();
        let mid = tree_walk(recs, inputs[i as int], depth, last, open, path, rows, max);
        lemma_walk(recs, inputs[i as int], depth, last, open, path, rows, max);
        lemma_children(recs, inputs, i + 1, depth, open, path, mid, max);
        assert(out == tree_children(recs, inputs, i + 1, depth, open, path, mid, max));
        lemma_children_list_inputs(recs, inputs, i + 1, depth, open, path, mid, max);
        assert(rows.len() < max);
        lemma_walk_lists_item(recs, inputs[i as int], depth, last, open, path, rows, max);
        let a = mid.subrange(rows.len() as int, mid.len() as int);
        let b = out.subrange(mid.len() as int, out.len() as int);
        assert(out.subrange(rows.len() as int, out.len() as int) =~= a + b) by {
            assert(out.subrange(0, mid.len() as int) == mid);
            assert forall|k: int| 0 <= k < a.len() implies (a + b)[k] == out[rows.len() + k] by {
                assert(out[rows.len() + k] == out.subrange(0, mid.len() as int)[rows.len() + k]);
            }
        }
        lemma_depth_items_concat(a, b, depth);
        let tail = a.subrange(1, a.len() as int);
        assert forall|k: int| 0 <= k < tail.len() implies #[trigger] tail[k].2 != depth by {
            assert(tail[k] == mid[rows.len() + 1 + k]);
        }
        lemma_depth_items_none(tail, depth);
        assert(a =~= seq![a[0]] + tail);
        assert(a[0] == mid[rows.len() as int]);
        lemma_depth_items_concat(seq![a[0]], tail, depth);
        assert(seq![a[0]].drop_last() =~= Seq::<RowSpec>::empty());
        assert(depth_items(Seq::<RowSpec>::empty(), depth) == Seq::<u16>::empty());
        assert(a[0].2 == depth && a[0].0 == inputs[i as int]);
        assert(seq![a[0]].last() == a[0]);
        assert(depth_items(seq![a[0]], depth) =~= seq![inputs[i as int]]);
        assert(inputs.subrange(i as int, inputs.len() as int) =~= seq![inputs[i as int]] + inputs.subrange(
            (i + 1) as int,
            inputs.len() as int,
        ));
    }
}

/// A production plan that fits in its row budget lists, one level below
/// the root, exactly the inputs of the root's best recipe, in order (raw
/// inputs as leaves with no recipe).
pub proof fn lemma_production_tree_inputs(recs: Seq<RuntimeRecipe>, item: u16, max: nat)
    requires
        tree_walk(recs, item, 0, true, Seq::empty(), Seq::empty(), Seq::empty(), max).len() < max,
        best_upto(recs, item, recs.len() as int) is Some,
    ensures
        depth_items(
            tree_walk(recs, item, 0, true, Seq::empty(), Seq::empty(), Seq::empty(), max),
            1,
        ) == recs[best_upto(recs, item, recs.len() as int)->0].inputs@,
{
    let e = Seq::<RowSpec>::empty();
    let b = best_upto(recs, item, recs.len() as int)->0;
    let out = tree_walk(recs, item, 0, true, Seq::empty(), Seq::empty(), e, max);
    assert(!Seq::<u16>::empty().contains(item));
    let row: RowSpec = (item, Some(recs[b].index), 0, true, Seq::empty(), false);
    let r1 = e.push(row);
    let ins = recs[b].inputs@;
    assert(out == tree_children(recs, ins, 0, 1, Seq::<bool>::empty().push(!true), Seq::<u16>::empty().push(item), r1, max));
    lemma_children(recs, ins, 0, 1, Seq::<bool>::empty().push(!true), Seq::<u16>::empty().push(item), r1, max);
    lemma_children_list_inputs(recs, ins, 0, 1, Seq::<bool>::empty().push(!true), Seq::<u16>::empty().push(item), r1, max);
    assert(out =~= r1 + out.subrange(1, out.len() as int)) by {
        assert(out.subrange(0, 1) == r1);
        assert(out[0] == out.subrange(0, 1)[0]);
    }
    lemma_depth_items_concat(r1, out.subrange(1, out.len() as int), 1);
    assert(r1.drop_last() =~= e);
    assert(depth_items(e, 1) == Seq::<u16>::empty());
    assert(r1.last() == row);
    assert(depth_items(r1, 1) =~= Seq::<u16>::empty());
    assert(ins.subrange(0, ins.len() as int) =~= ins);
}

/// The shape of a production tree: at most `max` rows; the first row is the
/// root item at depth 0, not a cycle, with its best recipe; no row is deeper
/// than 24; a cyclic row lists no recipe; and the rows nest parent first, a
/// row being followed by a deeper one only when it lists a recipe and is no
/// cycle, and then by one exactly one level deeper.
pub proof fn lemma_production_tree_shape(recs: Seq<RuntimeRecipe>, item: u16, max: nat)
    ensures
        ({
            let out = tree_walk(recs, item, 0, true, Seq::empty(), Seq::empty(), Seq::empty(), max);
            &&& out.len() <= max
            &&& max > 0 ==> out.len() >= 1 && out[0].0 == item && out[0].2 == 0 && !out[0].5
                && out[0].1 == (match best_upto(recs, item, recs.len() as int) {
                    Some(b) => Some(recs[b].index),
                    None => None,
                })
            &&& forall|k: int| 0 <= k < out.len() ==> #[trigger] out[k].2 <= 24
            &&& forall|k: int| 0 <= k < out.len() && #[trigger] out[k].5 ==> out[k].1 is None
            &&& rows_nest(out)
        }),
{
    let e = Seq::<RowSpec>::empty();
    let out = tree_walk(recs, item, 0, true, Seq::empty(), Seq::empty(), e, max);
    lemma_walk(recs, item, 0, true, Seq::empty(), Seq::empty(), e, max);
    assert(rows_nest(e));
    if max > 0 {
        assert(!Seq::<u16>::empty().contains(item));
        match best_upto(recs, item, recs.len() as int) {
            None => {},
            Some(b) => {
                let row: RowSpec = (item, Some(recs[b].index), 0, true, Seq::empty(), false);
                let r1 = e.push(row);
                lemma_children(recs, recs[b].inputs@, 0, 1, Seq::<bool>::empty().push(!true), Seq::<u16>::empty().push(item), r1, max);
                assert(out.subrange(0, 1) == r1);
                assert(out[0] == out.subrange(0, 1)[0]);
            },
        }
    }
}

// ---------------------------------------------------------------------------
// Craft depths

/// Depth table and "known" flags, indexed by 1-based recipe index.
pub type DepthState = (Seq<u32>, Seq<bool>);

pub open spec fn producer_of(item: u16) -> spec_fn(RuntimeRecipe) -> bool {
    |r: RuntimeRecipe| spec_is_viewer(r) && yields(r, item)
}

/// Indices of the viewer recipes that yield `item`.
pub open spec fn producers(recs: Seq<RuntimeRecipe>, item: u16) -> Seq<u16> {
    recipe_indices(recs, producer_of(item))
}

/// Smallest depth among the producers whose depth is known.
pub open spec fn min_known(prods: Seq<u16>, st: DepthState) -> Option<u32>
    decreases prods.len(),
{
    if prods.len() == 0 {
        None
    } else {
        let b = min_known(prods.drop_last(), st);
        let p = prods.last() as int;
        if st.1[p] {
            Some(
                match b {
                    None => st.0[p],
                    Some(x) => if x < st.0[p] { x } else { st.0[p] },
                },
            )
        } else {
            b
        }
    }
}

/// Deepest input: each input's depth is the shallowest known producer
/// (0 when nothing produces it); `None` while some produced input has no
/// known producer yet.
pub open spec fn eval_inputs(recs: Seq<RuntimeRecipe>, inputs: Seq<u16>, st: DepthState) -> Option<u32>
    decreases inputs.len(),
{
    if inputs.len() == 0 {
        Some(0)
    } else {
        match eval_inputs(recs, inputs.drop_last(), st) {
            None => None,
            Some(m) => {
                let prods = producers(recs, inputs.last());
                if prods.len() == 0 {
                    Some(m)
                } else {
                    match min_known(prods, st) {
                        None => None,
                        Some(d) => Some(if m < d { d } else { m }),
                    }
                }
            },
        }
    }
}

/// One step of the sweep: a crafted viewer recipe whose inputs all resolve
/// takes one more than its deepest input (capped at 40) if that is new or
/// shallower.
pub open spec fn relax(recs: Seq<RuntimeRecipe>, r: RuntimeRecipe, st: DepthState) -> (DepthState, bool) {
    if !spec_is_viewer(r) || r.inputs@.len() == 0 {
        (st, false)
    } else {
        match eval_inputs(recs, r.inputs@, st) {
            None => (st, false),
            Some(m) => {
                let d: u32 = if m < 40 { (m + 1) as u32 } else { 40 };
                let i = r.index as int;
                if !st.1[i] || d < st.0[i] {
                    ((st.0.update(i, d), st.1.update(i, true)), true)
                } else {
                    (st, false)
                }
            },
        }
    }
}

/// Relax the first `k` recipes in order; also report whether anything changed.
pub open spec fn sweep(recs: Seq<RuntimeRecipe>, k: int, st: DepthState) -> (DepthState, bool)
    decreases k,
{
    if k <= 0 {
        (st, false)
    } else {
        let (s1, c1) = sweep(recs, k - 1, st);
        let (s2, c2) = relax(recs, recs[k - 1], s1);
        (s2, c1 || c2)
    }
}

/// Up to `t` sweeps, stopping early once a sweep changes nothing.
pub open spec fn settle(recs: Seq<RuntimeRecipe>, t: nat, st: DepthState) -> DepthState
    decreases t,
{
    if t == 0 {
        st
    } else {
        let (s2, ch) = sweep(recs, recs.len() as int, st);
        if !ch {
            s2
        } else {
            settle(recs, (t - 1) as nat, s2)
        }
    }
}

/// Extraction recipes and viewer recipes without inputs start at depth 0.
pub open spec fn seed_depths(recs: Seq<RuntimeRecipe>, k: int, st: DepthState) -> DepthState
    decreases k,
{
    if k <= 0 {
        st
    } else {
        let s1 = seed_depths(recs, k - 1, st);
        let r = recs[k - 1];
        if spec_is_viewer(r) && (r.inputs@.len() == 0 || r.extracts is Some) {
            (s1.0.update(r.index as int, 0u32), s1.1.update(r.index as int, true))
        } else {
            s1
        }
    }
}

/// Viewer recipes still unresolved are parked at depth 30.
pub open spec fn park_unknown(recs: Seq<RuntimeRecipe>, k: int, st: DepthState) -> DepthState
    decreases k,
{
    if k <= 0 {
        st
    } else {
        let s1 = park_unknown(recs, k - 1, st);
        let r = recs[k - 1];
        if spec_is_viewer(r) && !s1.1[r.index as int] {
            (s1.0.update(r.index as int, 30u32), s1.1.update(r.index as int, true))
        } else {
            s1
        }
    }
}

/// `(index, depth)` of each known viewer recipe among the first `k`.
pub open spec fn depth_rows(recs: Seq<RuntimeRecipe>, k: int, st: DepthState) -> Seq<(u16, u32)>
    decreases k,
{
    if k <= 0 {
        Seq::empty()
    } else {
        let rest = depth_rows(recs, k - 1, st);
        let r = recs[k - 1];
        if spec_is_viewer(r) && st.1[r.index as int] {
            rest.push((r.index, st.0[r.index as int]))
        } else {
            rest
        }
    }
}

/// Topological craft depth of every viewer recipe (0 = extraction / no
/// inputs): seed, sweep until stable (at most `min(n + 8, 96)` sweeps),
/// park the rest at 30.
pub open spec fn craft_depths(recs: Seq<RuntimeRecipe>) -> Seq<(u16, u32)> {
    let n = recs.len();
    if n == 0 {
        Seq::empty()
    } else {
        let st0: DepthState = (Seq::new(n + 1, |i: int| 99u32), Seq::new(n + 1, |i: int| false));
        let st1 = seed_depths(recs, n as int, st0);
        let rounds: nat = if n + 8 < 96 { (n + 8) as nat } else { 96 };
        let st2 = settle(recs, rounds, st1);
        let st3 = park_unknown(recs, n as int, st2);
        depth_rows(recs, n as int, st3)
    }
}

/// Recipe `k` of the table has index `k + 1`.
pub open spec fn indexed(recs: Seq<RuntimeRecipe>) -> bool {
    &&& recs.len() < u16::MAX
    &&& forall|k: int| 0 <= k < recs.len() ==> #[trigger] recs[k].index == k + 1
}

/// A depth table for `n` recipes whose known depths are at most 40.
pub open spec fn depths_bounded(st: DepthState, n: nat) -> bool {
    &&& st.0.len() == n + 1
    &&& st.1.len() == n + 1
    &&& forall|i: int| 0 <= i <= n && #[trigger] st.1[i] ==> st.0[i] <= 40
}

pub open spec fn viewer_pred() -> spec_fn(RuntimeRecipe) -> bool {
    |r: RuntimeRecipe| spec_is_viewer(r)
}

proof fn lemma_seed_bounded(recs: Seq<RuntimeRecipe>, k: int, st: DepthState)
    requires
        indexed(recs),
        0 <= k <= recs.len(),
        depths_bounded(st, recs.len()),
    ensures
        depths_bounded(seed_depths(recs, k, st), recs.len()),
    decreases k,
{
    if k > 0 {
        lemma_seed_bounded(recs, k - 1, st);
        assert(recs[k - 1].index == k);
    }
}

proof fn lemma_sweep_bounded(recs: Seq<RuntimeRecipe>, k: int, st: DepthState)
    requires
        indexed(recs),
        0 <= k <= recs.len(),
        depths_bounded(st, recs.len()),
    ensures
        depths_bounded(sweep(recs, k, st).0, recs.len()),
    decreases k,
{
    if k > 0 {
        lemma_sweep_bounded(recs, k - 1, st);
        assert(recs[k - 1].index == k);
    }
}

proof fn lemma_settle_bounded(recs: Seq<RuntimeRecipe>, t: nat, st: DepthState)
    requires
        indexed(recs),
        depths_bounded(st, recs.len()),
    ensures
        depths_bounded(settle(recs, t, st), recs.len()),
    decreases t,
{
    if t > 0 {
        lemma_sweep_bounded(recs, recs.len() as int, st);
        lemma_settle_bounded(recs, (t - 1) as nat, sweep(recs, recs.len() as int, st).0);
    }
}

proof fn lemma_park_known(recs: Seq<RuntimeRecipe>, k: int, st: DepthState)
    requires
        indexed(recs),
        0 <= k <= recs.len(),
        depths_bounded(st, recs.len()),
    ensures
        depths_bounded(park_unknown(recs, k, st), recs.len()),
        forall|j: int| 0 <= j < k && spec_is_viewer(#[trigger] recs[j]) ==> park_unknown(recs, k, st).1[j + 1],
    decreases k,
{
    if k > 0 {
        lemma_park_known(recs, k - 1, st);
        assert(recs[k - 1].index == k);
        let s1 = park_unknown(recs, k - 1, st);
        assert forall|j: int| 0 <= j < k && spec_is_viewer(#[trigger] recs[j]) implies park_unknown(recs, k, st).1[j + 1] by {
            assert(recs[j].index == j + 1);
        }
    }
}

proof fn lemma_rows_listed(recs: Seq<RuntimeRecipe>, k: int, st: DepthState)
    requires
        indexed(recs),
        0 <= k <= recs.len(),
        depths_bounded(st, recs.len()),
        forall|j: int| 0 <= j < k && spec_is_viewer(#[trigger] recs[j]) ==> st.1[j + 1],
    ensures
        depth_rows(recs, k, st).map_values(|p: (u16, u32)| p.0) == recipe_indices(recs.take(k), viewer_pred()),
        forall|i: int| 0 <= i < depth_rows(recs, k, st).len() ==> #[trigger] depth_rows(recs, k, st)[i].1 <= 40,
    decreases k,
{
    if k == 0 {
        assert(recs.take(0) =~= Seq::<RuntimeRecipe>::empty());
        assert(depth_rows(recs, k, st).map_values(|p: (u16, u32)| p.0) =~= Seq::<u16>::empty());
    } else {
        lemma_rows_listed(recs, k - 1, st);
        assert(recs.take(k).drop_last() =~= recs.take(k - 1));
        assert(recs.take(k).last() == recs[k - 1]);
        assert(recs[k - 1].index == k);
        let rest = depth_rows(recs, k - 1, st);
        if spec_is_viewer(recs[k - 1]) {
            assert(depth_rows(recs, k, st).map_values(|p: (u16, u32)| p.0) =~= rest.map_values(|p: (u16, u32)| p.0).push(
                recs[k - 1].index,
            ));
        } else {
            assert(depth_rows(recs, k, st) == rest);
        }
    }
}

/// Every viewer recipe gets a craft depth, listed once each in table
/// order, and no depth exceeds 40.
pub proof fn lemma_craft_depths_shape(recs: Seq<RuntimeRecipe>)
    requires
        indexed(recs),
    ensures
        craft_depths(recs).map_values(|p: (u16, u32)| p.0) == recipe_indices(recs, viewer_pred()),
        forall|i: int| 0 <= i < craft_depths(recs).len() ==> #[trigger] craft_depths(recs)[i].1 <= 40,
{
    let n = recs.len();
    if n == 0 {
        assert(craft_depths(recs).map_values(|p: (u16, u32)| p.0) =~= Seq::<u16>::empty());
    } else {
        let st0: DepthState = (Seq::new(n + 1, |i: int| 99u32), Seq::new(n + 1, |i: int| false));
        let st1 = seed_depths(recs, n as int, st0);
        let rounds: nat = if n + 8 < 96 { (n + 8) as nat } else { 96 };
        let st2 = settle(recs, rounds, st1);
        let st3 = park_unknown(recs, n as int, st2);
        lemma_seed_bounded(recs, n as int, st0);
        lemma_settle_bounded(recs, rounds, st1);
        lemma_park_known(recs, n as int, st2);
        lemma_rows_listed(recs, n as int, st3);
        assert(recs.take(n as int) =~= recs);
    }
}

/// A viewer recipe that starts the depth order at 0: no inputs, or an
/// extraction.
pub open spec fn seeded(r: RuntimeRecipe) -> bool {
    spec_is_viewer(r) && (r.inputs@.len() == 0 || r.extracts is Some)
}

/// An input that adds no depth: nothing yields it (a raw world item), or a
/// depth-0 recipe does.
pub open spec fn ground_input(recs: Seq<RuntimeRecipe>, x: u16) -> bool {
    producers(recs, x).len() == 0 || exists|j: int| 0 <= j < recs.len() && seeded(recs[j]) && yields(#[trigger] recs[j], x)
}

/// Depth-0 recipes are known at depth 0; recipe `i`, once known, is at 1.
pub open spec fn depth_inv(recs: Seq<RuntimeRecipe>, st: DepthState, i: int) -> bool {
    &&& depths_bounded(st, recs.len())
    &&& forall|j: int| 0 <= j < recs.len() && #[trigger] seeded(recs[j]) ==> st.1[j + 1] && st.0[j + 1] == 0
    &&& st.1[i + 1] ==> st.0[i + 1] == 1
}

proof fn lemma_indices_has(recs: Seq<RuntimeRecipe>, keep: spec_fn(RuntimeRecipe) -> bool, j: int)
    requires
        0 <= j < recs.len(),
        keep(recs[j]),
    ensures
        recipe_indices(recs, keep).contains(recs[j].index),
    decreases recs.len(),
{
    let r = recipe_indices(recs, keep);
    if j == recs.len() - 1 {
        assert(r.last() == recs[j].index);
        assert(r[r.len() - 1] == recs[j].index);
    } else {
        lemma_indices_has(recs.drop_last(), keep, j);
        let rest = recipe_indices(recs.drop_last(), keep);
        let k = choose|k: int| 0 <= k < rest.len() && rest[k] == recs[j].index;
        assert(r[k] == rest[k]);
    }
}

proof fn lemma_min_known_zero(prods: Seq<u16>, st: DepthState, p: u16)
    requires
        prods.contains(p),
        st.1[p as int],
        st.0[p as int] == 0,
    ensures
        min_known(prods, st) == Some(0u32),
    decreases prods.len(),
{
    let q = prods.last();
    if q == p {
    } else {
        let k = choose|k: int| 0 <= k < prods.len() && prods[k] == p;
        assert(k != prods.len() - 1);
        assert(prods.drop_last()[k] == p);
        lemma_min_known_zero(prods.drop_last(), st, p);
    }
}

proof fn lemma_eval_ground(recs: Seq<RuntimeRecipe>, inputs: Seq<u16>, st: DepthState, i: int)
    requires
        indexed(recs),
        depth_inv(recs, st, i),
        forall|k: int| 0 <= k < inputs.len() ==> ground_input(recs, #[trigger] inputs[k]),
    ensures
        eval_inputs(recs, inputs, st) == Some(0u32),
    decreases inputs.len(),
{
    if inputs.len() > 0 {
        lemma_eval_ground(recs, inputs.drop_last(), st, i);
        let x = inputs.last();
        assert(ground_input(recs, inputs[inputs.len() - 1]));
        let prods = producers(recs, x);
        if prods.len() > 0 {
            let j = choose|j: int| 0 <= j < recs.len() && seeded(recs[j]) && yields(#[trigger] recs[j], x);
            lemma_indices_has(recs, producer_of(x), j);
            assert(recs[j].index == j + 1);
            lemma_min_known_zero(prods, st, recs[j].index);
        }
    }
}

proof fn lemma_relax_keeps(recs: Seq<RuntimeRecipe>, m: int, st: DepthState, i: int)
    requires
        indexed(recs),
        0 <= m < recs.len(),
        -1 <= i < recs.len(),
        depth_inv(recs, st, i),
        i >= 0 ==> recs[i].extracts is None,
        i >= 0 ==> forall|k: int| 0 <= k < recs[i].inputs@.len() ==> ground_input(recs, #[trigger] recs[i].inputs@[k]),
    ensures
        depth_inv(recs, relax(recs, recs[m], st).0, i),
        forall|x: int| 0 <= x <= recs.len() && #[trigger] st.1[x] ==> relax(recs, recs[m], st).0.1[x],
        m == i && spec_is_viewer(recs[i]) && recs[i].inputs@.len() > 0 ==> relax(recs, recs[m], st).0.1[i + 1],
{
    assert(recs[m].index == m + 1);
    if i >= 0 {
        assert(recs[i].index == i + 1);
    }
    if m == i && spec_is_viewer(recs[i]) && recs[i].inputs@.len() > 0 {
        lemma_eval_ground(recs, recs[i].inputs@, st, i);
    }
    let s2 = relax(recs, recs[m], st).0;
    assert forall|j: int| 0 <= j < recs.len() && #[trigger] seeded(recs[j]) implies s2.1[j + 1] && s2.0[j + 1] == 0 by {
        assert(st.1[j + 1] && st.0[j + 1] == 0);
    }
}

proof fn lemma_sweep_keeps(recs: Seq<RuntimeRecipe>, k: int, st: DepthState, i: int)
    requires
        indexed(recs),
        0 <= k <= recs.len(),
        -1 <= i < recs.len(),
        depth_inv(recs, st, i),
        i >= 0 ==> recs[i].extracts is None,
        i >= 0 ==> forall|q: int| 0 <= q < recs[i].inputs@.len() ==> ground_input(recs, #[trigger] recs[i].inputs@[q]),
    ensures
        depth_inv(recs, sweep(recs, k, st).0, i),
        forall|x: int| 0 <= x <= recs.len() && #[trigger] st.1[x] ==> sweep(recs, k, st).0.1[x],
        i >= 0 && k > i && spec_is_viewer(recs[i]) && recs[i].inputs@.len() > 0 ==> sweep(recs, k, st).0.1[i + 1],
    decreases k,
{
    if k > 0 {
        lemma_sweep_keeps(recs, k - 1, st, i);
        let s1 = sweep(recs, k - 1, st).0;
        lemma_relax_keeps(recs, k - 1, s1, i);
        assert forall|x: int| 0 <= x <= recs.len() && #[trigger] st.1[x] implies sweep(recs, k, st).0.1[x] by {
            assert(s1.1[x]);
        }
        if i >= 0 && k > i && spec_is_viewer(recs[i]) && recs[i].inputs@.len() > 0 && k - 1 > i {
            assert(s1.1[i + 1]);
        }
    }
}

proof fn lemma_settle_keeps(recs: Seq<RuntimeRecipe>, t: nat, st: DepthState, i: int)
    requires
        indexed(recs),
        -1 <= i < recs.len(),
        depth_inv(recs, st, i),
        i >= 0 ==> recs[i].extracts is None,
        i >= 0 ==> forall|q: int| 0 <= q < recs[i].inputs@.len() ==> ground_input(recs, #[trigger] recs[i].inputs@[q]),
    ensures
        depth_inv(recs, settle(recs, t, st), i),
        forall|x: int| 0 <= x <= recs.len() && #[trigger] st.1[x] ==> settle(recs, t, st).1[x],
        i >= 0 && t > 0 && spec_is_viewer(recs[i]) && recs[i].inputs@.len() > 0 ==> settle(recs, t, st).1[i + 1],
    decreases t,
{
    if t > 0 {
        let n = recs.len() as int;
        lemma_sweep_keeps(recs, n, st, i);
        let s2 = sweep(recs, n, st).0;
        lemma_settle_keeps(recs, (t - 1) as nat, s2, i);
        assert forall|x: int| 0 <= x <= recs.len() && #[trigger] st.1[x] implies settle(recs, t, st).1[x] by {
            assert(s2.1[x]);
        }
        if i >= 0 && spec_is_viewer(recs[i]) && recs[i].inputs@.len() > 0 {
            assert(s2.1[i + 1]);
        }
    }
}

proof fn lemma_seed_sets(recs: Seq<RuntimeRecipe>, k: int, st: DepthState)
    requires
        indexed(recs),
        0 <= k <= recs.len(),
        st.0.len() == recs.len() + 1,
        st.1.len() == recs.len() + 1,
    ensures
        seed_depths(recs, k, st).0.len() == recs.len() + 1,
        seed_depths(recs, k, st).1.len() == recs.len() + 1,
        seed_depths(recs, k, st).1[0] == st.1[0],
        forall|j: int| 0 <= j < k && #[trigger] seeded(recs[j]) ==> seed_depths(recs, k, st).1[j + 1]
            && seed_depths(recs, k, st).0[j + 1] == 0,
        forall|j: int| 0 <= j < recs.len() && !(j < k && seeded(recs[j])) ==> seed_depths(recs, k, st).1[j + 1]
            == #[trigger] st.1[j + 1] && seed_depths(recs, k, st).0[j + 1] == st.0[j + 1],
    decreases k,
{
    if k > 0 {
        lemma_seed_sets(recs, k - 1, st);
        assert(recs[k - 1].index == k);
    }
}

proof fn lemma_park_keeps(recs: Seq<RuntimeRecipe>, k: int, st: DepthState)
    requires
        indexed(recs),
        0 <= k <= recs.len(),
        depths_bounded(st, recs.len()),
    ensures
        forall|x: int| 0 <= x <= recs.len() && #[trigger] st.1[x] ==> park_unknown(recs, k, st).1[x]
            && park_unknown(recs, k, st).0[x] == st.0[x],
    decreases k,
{
    if k > 0 {
        lemma_park_keeps(recs, k - 1, st);
        lemma_park_known(recs, k - 1, st);
        assert(recs[k - 1].index == k);
    }
}

proof fn lemma_rows_has(recs: Seq<RuntimeRecipe>, k: int, st: DepthState, i: int)
    requires
        indexed(recs),
        0 <= i < k <= recs.len(),
        spec_is_viewer(recs[i]),
        st.1[i + 1],
    ensures
        depth_rows(recs, k, st).contains((recs[i].index, st.0[i + 1])),
    decreases k,
{
    assert(recs[i].index == i + 1);
    let rows = depth_rows(recs, k, st);
    if i == k - 1 {
        assert(rows[rows.len() - 1] == (recs[i].index, st.0[i + 1]));
    } else {
        lemma_rows_has(recs, k - 1, st, i);
        let rest = depth_rows(recs, k - 1, st);
        let p = choose|p: int| 0 <= p < rest.len() && rest[p] == (recs[i].index, st.0[i + 1]);
        assert(rows[p] == rest[p]);
    }
}

/// Craft depth counts from extraction: a recipe with no inputs or an
/// extraction is at depth 0, and a crafted recipe whose every input is
/// either produced by no recipe (a raw world item) or by such a depth-0
/// recipe is at depth 1 (never left unresolved and parked).
pub proof fn lemma_depth_from_ground(recs: Seq<RuntimeRecipe>, i: int)
    requires
        indexed(recs),
        0 <= i < recs.len(),
    ensures
        seeded(recs[i]) ==> craft_depths(recs).contains((recs[i].index, 0u32)),
        spec_is_viewer(recs[i]) && recs[i].inputs@.len() > 0 && recs[i].extracts is None && (forall|k: int|
            0 <= k < recs[i].inputs@.len() ==> ground_input(recs, #[trigger] recs[i].inputs@[k]))
            ==> craft_depths(recs).contains((recs[i].index, 1u32)),
{
    let n = recs.len();
    let st0: DepthState = (Seq::new(n + 1, |x: int| 99u32), Seq::new(n + 1, |x: int| false));
    let st1 = seed_depths(recs, n as int, st0);
    let rounds: nat = if n + 8 < 96 { (n + 8) as nat } else { 96 };
    let st2 = settle(recs, rounds, st1);
    let st3 = park_unknown(recs, n as int, st2);
    assert(craft_depths(recs) == depth_rows(recs, n as int, st3));
    lemma_seed_sets(recs, n as int, st0);
    lemma_seed_bounded(recs, n as int, st0);
    lemma_settle_bounded(recs, rounds, st1);
    lemma_park_known(recs, n as int, st2);
    lemma_park_keeps(recs, n as int, st2);
    if seeded(recs[i]) {
        // seeded entries are known at 0 after seeding and never change
        assert(st1.1[i + 1] && st1.0[i + 1] == 0);
        assert(depth_inv(recs, st1, -1));
        lemma_settle_keeps(recs, rounds, st1, -1);
        assert(st2.1[i + 1] && st2.0[i + 1] == 0);
        assert(st3.1[i + 1] && st3.0[i + 1] == 0);
        lemma_rows_has(recs, n as int, st3, i);
    }
    if spec_is_viewer(recs[i]) && recs[i].inputs@.len() > 0 && recs[i].extracts is None && (forall|k: int|
        0 <= k < recs[i].inputs@.len() ==> ground_input(recs, #[trigger] recs[i].inputs@[k])) {
        assert(!seeded(recs[i]));
        assert(!st0.1[i + 1]);
        assert(!st1.1[i + 1]);
        assert(depth_inv(recs, st1, i));
        lemma_settle_keeps(recs, rounds, st1, i);
        assert(st2.1[i + 1] && st2.0[i + 1] == 1);
        assert(st3.1[i + 1] && st3.0[i + 1] == 1);
        lemma_rows_has(recs, n as int, st3, i);
    }
}

pub proof fn lemma_eval_none_extends(recs: Seq<RuntimeRecipe>, inputs: Seq<u16>, m: int, st: DepthState)
    requires
        0 <= m <= inputs.len(),
        eval_inputs(recs, inputs.take(m), st) is None,
    ensures
        eval_inputs(recs, inputs, st) is None,
    decreases inputs.len(),
{
    if m < inputs.len() {
        assert(inputs.drop_last().take(m) =~= inputs.take(m));
        lemma_eval_none_extends(recs, inputs.drop_last(), m, st);
    } else {
        assert(inputs.take(m) =~= inputs);
    }
}

/// The choice is a candidate, no candidate scores higher, and every earlier
/// candidate scores strictly lower.
pub proof fn lemma_best_upto(recs: Seq<RuntimeRecipe>, item: u16, k: int)
    requires
        0 <= k <= recs.len(),
    ensures
        best_upto(recs, item, k) is None <==> forall|j: int| 0 <= j < k ==> !best_candidate(#[trigger] recs[j], item),
        best_upto(recs, item, k) matches Some(b) ==> {
            &&& 0 <= b < k
            &&& best_candidate(recs[b], item)
            &&& forall|j: int| 0 <= j < k && best_candidate(#[trigger] recs[j], item) ==> recipe_score(recs[j], item)
                <= recipe_score(recs[b], item)
            &&& forall|j: int| 0 <= j < b && best_candidate(#[trigger] recs[j], item) ==> recipe_score(recs[j], item)
                < recipe_score(recs[b], item)
        },
    decreases k,
{
    if k > 0 {
        lemma_best_upto(recs, item, k - 1);
    }
}

/// A recovery loop (an id containing `recovery_`) is ranked 50 below a
/// real craft of the item that is otherwise alike (same product/waste role,
/// bridge mark and extraction): so such a real craft with at most 49 more
/// inputs is always chosen over the loop, whatever else the table holds.
pub proof fn lemma_recovery_loses(recs: Seq<RuntimeRecipe>, item: u16, i: int, j: int)
    requires
        0 <= i < recs.len(),
        0 <= j < recs.len(),
        best_candidate(recs[i], item),
        best_candidate(recs[j], item),
        contains_run(recs[i].id@, "recovery_"@),
        !contains_run(recs[j].id@, "recovery_"@),
        recs[i].outputs@.contains(item) == recs[j].outputs@.contains(item),
        recs[i].waste@.contains(item) == recs[j].waste@.contains(item),
        contains_run(recs[i].id@, "bridge_"@) == contains_run(recs[j].id@, "bridge_"@),
        (recs[i].extracts is Some) == (recs[j].extracts is Some),
        recs[j].inputs@.len() <= recs[i].inputs@.len() + 49,
    ensures
        recipe_score(recs[i], item) + 50 + recs[i].inputs@.len() == recipe_score(recs[j], item)
            + recs[j].inputs@.len(),
        best_upto(recs, item, recs.len() as int) != Some(i),
{
    lemma_best_upto(recs, item, recs.len() as int);
}

/// Two recipes that rank alike apart from their inputs: same role for the
/// item (product or waste), same bridge and recovery marks, same extraction.
pub open spec fn alike_for(a: RuntimeRecipe, b: RuntimeRecipe, item: u16) -> bool {
    &&& a.outputs@.contains(item) == b.outputs@.contains(item)
    &&& a.waste@.contains(item) == b.waste@.contains(item)
    &&& contains_run(a.id@, "bridge_"@) == contains_run(b.id@, "bridge_"@)
    &&& contains_run(a.id@, "recovery_"@) == contains_run(b.id@, "recovery_"@)
    &&& (a.extracts is Some) == (b.extracts is Some)
}

/// Among otherwise alike candidates, fewer inputs win, and on equal input
/// counts the earlier recipe in the table wins.
pub proof fn lemma_simpler_wins(recs: Seq<RuntimeRecipe>, item: u16, i: int, j: int)
    requires
        0 <= i < recs.len(),
        0 <= j < recs.len(),
        i != j,
        best_candidate(recs[i], item),
        best_candidate(recs[j], item),
        alike_for(recs[i], recs[j], item),
        recs[j].inputs@.len() < recs[i].inputs@.len() || (recs[j].inputs@.len() == recs[i].inputs@.len() && j < i),
    ensures
        best_upto(recs, item, recs.len() as int) != Some(i),
{
    lemma_best_upto(recs, item, recs.len() as int);
}

/// A recipe that makes the item as its product outranks one that only
/// leaves it as waste, unless the product recipe needs 140 or more inputs
/// beyond the other (all else alike).
pub proof fn lemma_product_beats_waste(recs: Seq<RuntimeRecipe>, item: u16, i: int, j: int)
    requires
        0 <= i < recs.len(),
        0 <= j < recs.len(),
        best_candidate(recs[i], item),
        best_candidate(recs[j], item),
        recs[j].outputs@.contains(item) && !recs[j].waste@.contains(item),
        !recs[i].outputs@.contains(item) && recs[i].waste@.contains(item),
        contains_run(recs[i].id@, "bridge_"@) == contains_run(recs[j].id@, "bridge_"@),
        contains_run(recs[i].id@, "recovery_"@) == contains_run(recs[j].id@, "recovery_"@),
        (recs[i].extracts is Some) == (recs[j].extracts is Some),
        recs[j].inputs@.len() <= recs[i].inputs@.len() + 139,
    ensures
        best_upto(recs, item, recs.len() as int) != Some(i),
{
    lemma_best_upto(recs, item, recs.len() as int);
}

/// A bridge recipe (id containing `bridge_`) ranks 20 below an otherwise
/// alike recipe, and an extraction 30 above: the bridge loses to such a
/// recipe with at most 19 more inputs, a non-extraction to such an
/// extraction with at most 29 more.
pub proof fn lemma_bridge_and_extraction(recs: Seq<RuntimeRecipe>, item: u16, i: int, j: int)
    requires
        0 <= i < recs.len(),
        0 <= j < recs.len(),
        best_candidate(recs[i], item),
        best_candidate(recs[j], item),
        recs[i].outputs@.contains(item) == recs[j].outputs@.contains(item),
        recs[i].waste@.contains(item) == recs[j].waste@.contains(item),
        contains_run(recs[i].id@, "recovery_"@) == contains_run(recs[j].id@, "recovery_"@),
    ensures
        contains_run(recs[i].id@, "bridge_"@) && !contains_run(recs[j].id@, "bridge_"@) && (recs[i].extracts is Some)
            == (recs[j].extracts is Some) && recs[j].inputs@.len() <= recs[i].inputs@.len() + 19 ==> best_upto(
            recs,
            item,
            recs.len() as int,
        ) != Some(i),
        recs[i].extracts is None && recs[j].extracts is Some && contains_run(recs[i].id@, "bridge_"@) == contains_run(
            recs[j].id@,
            "bridge_"@,
        ) && recs[j].inputs@.len() <= recs[i].inputs@.len() + 29 ==> best_upto(recs, item, recs.len() as int) != Some(i),
{
    lemma_best_upto(recs, item, recs.len() as int);
}

/// A fresh vector with the same flags.
pub fn copy_bools(v: &Vec<bool>) -> (r: Vec<bool>)
    ensures
        r@ == v@,
{
    let mut r: Vec<bool> = Vec::new();
    let mut i: usize = 0;
    while i < v.len()
        invariant
            i <= v@.len(),
            r@ == v@.take(i as int),
        decreases v@.len() - i,
    {
        r.push(v[i]);
        assert(v@.take(i + 1) =~= v@.take(i as int).push(v@[i as int]));
        i += 1;
    }
    assert(v@.take(v@.len() as int) =~= v@);
    r
}

impl ContentRegistry {
    /// Every entry sits at its own index, and ids are unique per table.
    pub open spec fn wf(&self) -> bool {
        &&& self.items.len() <= u16::MAX
        &&& self.recipes.len() < u16::MAX
        &&& self.machine_ids.len() <= u16::MAX
        &&& self.techs.len() <= u16::MAX
        &&& forall|i: int| 0 <= i < self.items.len() ==> #[trigger] self.items[i].index == i
        &&& forall|i: int| 0 <= i < self.recipes.len() ==> #[trigger] self.recipes[i].index == i + 1
        &&& forall|i: int| 0 <= i < self.techs.len() ==> #[trigger] self.techs[i].index == i
        &&& forall|i: int, j: int| 0 <= i < j < self.items.len() ==> self.items[i].id@ != self.items[j].id@
        &&& forall|i: int, j: int| 0 <= i < j < self.recipes.len() ==> self.recipes[i].id@ != self.recipes[j].id@
        &&& forall|i: int, j: int| 0 <= i < j < self.machine_ids.len() ==> self.machine_ids[i]@ != self.machine_ids[j]@
        &&& forall|i: int, j: int| 0 <= i < j < self.techs.len() ==> self.techs[i].id@ != self.techs[j].id@
    }

    pub open spec fn has_item_id(&self, id: Seq<char>) -> bool {
        exists|i: int| 0 <= i < self.items.len() && self.items[i].id@ == id
    }

    pub fn item_count(&self) -> (r: usize)
        ensures
            r == self.items.len(),
    {
        self.items.len()
    }

    pub fn item(&self, id: u16) -> (r: Option<&RuntimeItem>)
        ensures
            r == (if (id as int) < self.items.len() { Some(&self.items[id as int]) } else { None::<&RuntimeItem> }),
    {
        if (id as usize) < self.items.len() {
            Some(&self.items[id as usize])
        } else {
            None
        }
    }

    /// Position of the item with the given id string.
    pub fn item_index(&self, id: &str) -> (r: Option<u16>)
        requires
            self.wf(),
        ensures
            r matches Some(k) ==> k < self.items.len() && self.items[k as int].id@ == id@,
            r is None <==> !self.has_item_id(id@),
    {
        let mut i: usize = 0;
        while i < self.items.len()
            invariant
                self.wf(),
                i <= self.items.len(),
                forall|j: int| 0 <= j < i ==> self.items[j].id@ != id@,
            decreases self.items.len() - i,
        {
            if str_eq(self.items[i].id.as_str(), id) {
                return Some(i as u16);
            }
            i += 1;
        }
        None
    }

    pub fn item_by_str(&self, id: &str) -> (r: Option<&RuntimeItem>)
        requires
            self.wf(),
        ensures
            r matches Some(it) ==> it.id@ == id@ && self.has_item_id(id@) && (it.index as int) < self.items.len()
                && self.items[it.index as int] == *it,
            r is None <==> !self.has_item_id(id@),
    {
        match self.item_index(id) {
            Some(k) => Some(&self.items[k as usize]),
            None => None,
        }
    }

    /// Display name of an item; `"?"` for an id outside the table.
    pub fn label(&self, item: Item) -> (r: &str)
        ensures
            (item.0 as int) < self.items.len() ==> r@ == self.items[item.0 as int].name@,
            (item.0 as int) >= self.items.len() ==> r@ == "?"@,
    {
        if (item.0 as usize) < self.items.len() {
            self.items[item.0 as usize].name.as_str()
        } else {
            "?"
        }
    }

    pub fn is_fluid(&self, item: Item) -> (r: bool)
        ensures
            r == ((item.0 as int) < self.items.len() && self.items[item.0 as int].kind.spec_is_fluid()),
    {
        if (item.0 as usize) < self.items.len() {
            self.items[item.0 as usize].kind.is_fluid()
        } else {
            false
        }
    }

    /// Recipe by its 1-based index; 0 is "idle".
    pub fn recipe(&self, index: u16) -> (r: Option<&RuntimeRecipe>)
        ensures
            r == (if index != 0 && (index as int) <= self.recipes.len() {
                Some(&self.recipes[index - 1])
            } else {
                None::<&RuntimeRecipe>
            }),
    {
        if index == 0 {
            return None;
        }
        let k = (index - 1) as usize;
        if k < self.recipes.len() {
            Some(&self.recipes[k])
        } else {
            None
        }
    }

    pub fn recipe_by_str(&self, id: &str) -> (r: Option<&RuntimeRecipe>)
        requires
            self.wf(),
        ensures
            r matches Some(rc) ==> rc.id@ == id@ && exists|i: int|
                0 <= i < self.recipes.len() && self.recipes[i] == *rc
                    && forall|j: int| 0 <= j < i ==> self.recipes[j].id@ != id@,
            r is None <==> !(exists|i: int| 0 <= i < self.recipes.len() && self.recipes[i].id@ == id@),
    {
        let mut i: usize = 0;
        while i < self.recipes.len()
            invariant
                i <= self.recipes.len(),
                forall|j: int| 0 <= j < i ==> self.recipes[j].id@ != id@,
            decreases self.recipes.len() - i,
        {
            if str_eq(self.recipes[i].id.as_str(), id) {
                return Some(&self.recipes[i]);
            }
            i += 1;
        }
        None
    }

    /// Position of a machine id.
    pub fn machine_index(&self, id: &str) -> (r: Option<u16>)
        requires
            self.wf(),
        ensures
            r matches Some(k) ==> k < self.machine_ids.len() && self.machine_ids[k as int]@ == id@,
            r is None <==> !(exists|i: int| 0 <= i < self.machine_ids.len() && self.machine_ids[i]@ == id@),
    {
        let mut i: usize = 0;
        while i < self.machine_ids.len()
            invariant
                self.wf(),
                i <= self.machine_ids.len(),
                forall|j: int| 0 <= j < i ==> self.machine_ids[j]@ != id@,
            decreases self.machine_ids.len() - i,
        {
            if str_eq(self.machine_ids[i].as_str(), id) {
                return Some(i as u16);
            }
            i += 1;
        }
        None
    }

    pub fn tech(&self, index: u16) -> (r: Option<&RuntimeTech>)
        ensures
            r == (if (index as int) < self.techs.len() { Some(&self.techs[index as int]) } else { None::<&RuntimeTech> }),
    {
        if (index as usize) < self.techs.len() {
            Some(&self.techs[index as usize])
        } else {
            None
        }
    }

    pub open spec fn has_tech_id(&self, id: Seq<char>) -> bool {
        exists|i: int| 0 <= i < self.techs.len() && self.techs[i].id@ == id
    }

    pub fn tech_by_str(&self, id: &str) -> (r: Option<&RuntimeTech>)
        ensures
            r matches Some(t) ==> t.id@ == id@ && exists|i: int| 0 <= i < self.techs.len() && self.techs[i] == *t,
            r is None <==> !self.has_tech_id(id@),
    {
        let mut i: usize = 0;
        while i < self.techs.len()
            invariant
                i <= self.techs.len(),
                forall|j: int| 0 <= j < i ==> self.techs[j].id@ != id@,
            decreases self.techs.len() - i,
        {
            if str_eq(self.techs[i].id.as_str(), id) {
                return Some(&self.techs[i]);
            }
            i += 1;
        }
        None
    }

    pub fn is_viewer_recipe(&self, recipe: &RuntimeRecipe) -> (r: bool)
        ensures
            r == spec_is_viewer(*recipe),
    {
        recipe.outputs.len() > 0 && (recipe.inputs.len() > 0 || recipe.extracts.is_some())
    }

    /// Indices of the recipes crafted in the given machine, in table order.
    pub fn recipes_for_machine(&self, machine_id: &str) -> (r: Vec<u16>)
        ensures
            r@ == recipe_indices(self.recipes@, for_machine(machine_id@)),
    {
        let mut out: Vec<u16> = Vec::new();
        let mut k: usize = 0;
        while k < self.recipes.len()
            invariant
                k <= self.recipes.len(),
                out@ == recipe_indices(self.recipes@.take(k as int), for_machine(machine_id@)),
            decreases self.recipes.len() - k,
        {
            assert(self.recipes@.take(k + 1).drop_last() =~= self.recipes@.take(k as int));
            if str_eq(self.recipes[k].machine.as_str(), machine_id) {
                out.push(self.recipes[k].index);
            }
            k += 1;
        }
        assert(self.recipes@.take(self.recipes.len() as int) =~= self.recipes@);
        out
    }

    /// Recipes of the given categories, category by category, each listed once.
    pub fn recipes_for_categories(&self, cats: &[String]) -> (r: Vec<u16>)
        ensures
            r@ == dedup(category_runs(self.recipes@, cats@)),
    {
        let mut out: Vec<u16> = Vec::new();
        let mut c: usize = 0;
        while c < cats.len()
            invariant
                c <= cats@.len(),
                out@ == dedup(category_runs(self.recipes@, cats@.take(c as int))),
            decreases cats@.len() - c,
        {
            let ghost before = category_runs(self.recipes@, cats@.take(c as int));
            let mut k: usize = 0;
            while k < self.recipes.len()
                invariant
                    c < cats@.len(),
                    k <= self.recipes.len(),
                    out@ == dedup(before + recipe_indices(self.recipes@.take(k as int), in_category(cats@[c as int]@))),
                decreases self.recipes.len() - k,
            {
                let ghost prev = before + recipe_indices(self.recipes@.take(k as int), in_category(cats@[c as int]@));
                assert(self.recipes@.take(k + 1).drop_last() =~= self.recipes@.take(k as int));
                if str_eq(self.recipes[k].category.as_str(), cats[c].as_str()) {
                    let idx = self.recipes[k].index;
                    proof {
                        lemma_dedup_push(prev, idx);
                        lemma_dedup_contains(prev, idx);
                        assert(before + recipe_indices(self.recipes@.take(k + 1), in_category(cats@[c as int]@))
                            =~= prev.push(idx));
                    }
                    if !vec_has_u16(&out, idx) {
                        out.push(idx);
                    }
                } else {
                    assert(before + recipe_indices(self.recipes@.take(k + 1), in_category(cats@[c as int]@))
                        =~= prev);
                }
                k += 1;
            }
            assert(self.recipes@.take(self.recipes.len() as int) =~= self.recipes@);
            assert(cats@.take(c + 1).drop_last() =~= cats@.take(c as int));
            c += 1;
        }
        assert(cats@.take(cats@.len() as int) =~= cats@);
        out
    }

    /// Item id of the science pack that a cost key such as `engineering_data` names.
    pub fn science_item_for_key(&self, key: &str) -> (r: Option<u16>)
        requires
            self.wf(),
        ensures
            r matches Some(k) ==> k < self.items.len() && self.items[k as int].id@ == science_id(key@),
            r is None <==> !self.has_item_id(science_id(key@)),
    {
        let id = if str_eq(key, "engineering_data") {
            "era1_science_engineering_data"
        } else if str_eq(key, "chemical_data") {
            "era1_science_chemical_data"
        } else if str_eq(key, "computational_data") {
            "era1_science_computational_data"
        } else if str_eq(key, "defense_data") {
            "era1_science_defense_data"
        } else {
            key
        };
        self.item_index(id)
    }

    /// Prefer a real craft recipe for an item over recovery loops and waste
    /// side-products: the first viewer recipe with the highest score.
    pub fn best_recipe_for_output(&self, item: u16) -> (r: Option<&RuntimeRecipe>)
        requires
            forall|k: int| 0 <= k < self.recipes.len() ==> #[trigger] self.recipes[k].inputs@.len() <= 0x7fff_0000,
        ensures
            r == (match best_upto(self.recipes@, item, self.recipes@.len() as int) {
                Some(b) => Some(&self.recipes[b]),
                None => None::<&RuntimeRecipe>,
            }),
    {
        let mut best: Option<usize> = None;
        let mut best_score: i32 = i32::MIN;
        let mut k: usize = 0;
        while k < self.recipes.len()
            invariant
                k <= self.recipes.len(),
                forall|j: int| 0 <= j < self.recipes.len() ==> #[trigger] self.recipes[j].inputs@.len() <= 0x7fff_0000,
                best_upto(self.recipes@, item, k as int) == (match best {
                    Some(b) => Some(b as int),
                    None => None::<int>,
                }),
                best matches Some(b) ==> b < k && best_score == recipe_score(self.recipes[b as int], item),
                best is None ==> best_score == i32::MIN,
            decreases self.recipes.len() - k,
        {
            let r = &self.recipes[k];
            if self.is_viewer_recipe(r) {
                let in_out = vec_has_u16(&r.outputs, item);
                let in_waste = vec_has_u16(&r.waste, item);
                if in_out || in_waste {
                    let mut score: i32 = 0;
                    if in_out {
                        score += 100;
                    }
                    if in_waste {
                        score -= 40;
                    }
                    if str_contains(r.id.as_str(), "bridge_") {
                        score -= 20;
                    }
                    if str_contains(r.id.as_str(), "recovery_") {
                        score -= 50;
                    }
                    if r.extracts.is_some() {
                        score += 30;
                    }
                    score -= r.inputs.len() as i32;
                    if score > best_score {
                        best_score = score;
                        best = Some(k);
                    }
                }
            }
            k += 1;
        }
        match best {
            Some(b) => Some(&self.recipes[b]),
            None => None,
        }
    }

    /// Build a Helmod-style nested production plan rooted at `root_item`.
    pub fn production_tree(&self, root_item: u16, max_rows: usize) -> (r: Vec<ProductionTreeRow>)
        requires
            forall|k: int| 0 <= k < self.recipes.len() ==> #[trigger] self.recipes[k].inputs@.len() <= 0x7fff_0000,
        ensures
            rows_spec(r@) == tree_walk(self.recipes@, root_item, 0, true, Seq::empty(), Seq::empty(), Seq::empty(), max_rows as nat),
    {
        let mut rows: Vec<ProductionTreeRow> = Vec::new();
        let mut path: Vec<u16> = Vec::new();
        let open: Vec<bool> = Vec::new();
        assert(rows_spec(rows@) =~= Seq::<RowSpec>::empty());
        self.walk_production_tree(root_item, 0, true, &open, &mut path, &mut rows, max_rows);
        rows
    }

    fn walk_production_tree(
        &self,
        item: u16,
        depth: u32,
        is_last: bool,
        ancestor_open: &Vec<bool>,
        path: &mut Vec<u16>,
        rows: &mut Vec<ProductionTreeRow>,
        max_rows: usize,
    )
        requires
            depth <= 25,
            forall|k: int| 0 <= k < self.recipes.len() ==> #[trigger] self.recipes[k].inputs@.len() <= 0x7fff_0000,
        ensures
            rows_spec(final(rows)@) == tree_walk(
                self.recipes@,
                item,
                depth as nat,
                is_last,
                ancestor_open@,
                old(path)@,
                rows_spec(old(rows)@),
                max_rows as nat,
            ),
            final(path)@ == old(path)@,
        decreases 26 - depth,
    {
        if rows.len() >= max_rows || depth > 24 {
            return;
        }
        if vec_has_u16(path, item) {
            let row = ProductionTreeRow {
                item,
                recipe: None,
                depth,
                is_last,
                ancestor_open: copy_bools(ancestor_open),
                cyclic: true,
            };
            let ghost before = rows_spec(rows@);
            rows.push(row);
            assert(rows_spec(rows@) =~= before.push(row_spec(row)));
            return;
        }
        let recipe = self.best_recipe_for_output(item);
        let ghost before = rows_spec(rows@);
        let row = ProductionTreeRow {
            item,
            recipe: match recipe {
                Some(r) => Some(r.index),
                None => None,
            },
            depth,
            is_last,
            ancestor_open: copy_bools(ancestor_open),
            cyclic: false,
        };
        rows.push(row);
        assert(rows_spec(rows@) =~= before.push(row_spec(row)));
        if let Some(r) = recipe {
            let mut child_open = copy_bools(ancestor_open);
            child_open.push(!is_last);
            path.push(item);
            let ghost path1 = path@;
            let ghost start = rows_spec(rows@);
            let n = r.inputs.len();
            let mut i: usize = 0;
            while i < n
                invariant
                    depth <= 24,
                    n == r.inputs@.len(),
                    i <= n,
                    path@ == path1,
                    forall|k: int| 0 <= k < self.recipes.len() ==> #[trigger] self.recipes[k].inputs@.len() <= 0x7fff_0000,
                    tree_children(self.recipes@, r.inputs@, 0, (depth + 1) as nat, child_open@, path1, start, max_rows as nat)
                        == tree_children(self.recipes@, r.inputs@, i as nat, (depth + 1) as nat, child_open@, path1, rows_spec(rows@), max_rows as nat),
                decreases n - i,
            {
                let child = r.inputs[i];
                self.walk_production_tree(child, depth + 1, i + 1 == n, &child_open, path, rows, max_rows);
                i += 1;
            }
            path.pop();
            assert(path@ =~= old(path)@);
        }
    }

    /// Whether anything produces `item`, and the shallowest known producer depth.
    fn producer_depth(&self, item: u16, depth: &Vec<u32>, known: &Vec<bool>) -> (r: (bool, Option<u32>))
        requires
            depth@.len() == self.recipes.len() + 1,
            known@.len() == self.recipes.len() + 1,
            forall|k: int| 0 <= k < self.recipes.len() ==> #[trigger] self.recipes[k].index == k + 1,
        ensures
            r.0 == (producers(self.recipes@, item).len() > 0),
            r.1 == min_known(producers(self.recipes@, item), (depth@, known@)),
    {
        let ghost st: DepthState = (depth@, known@);
        let mut has = false;
        let mut best: Option<u32> = None;
        let mut q: usize = 0;
        while q < self.recipes.len()
            invariant
                q <= self.recipes.len(),
                st == (depth@, known@),
                depth@.len() == self.recipes.len() + 1,
                known@.len() == self.recipes.len() + 1,
                forall|k: int| 0 <= k < self.recipes.len() ==> #[trigger] self.recipes[k].index == k + 1,
                has == (recipe_indices(self.recipes@.take(q as int), producer_of(item)).len() > 0),
                best == min_known(recipe_indices(self.recipes@.take(q as int), producer_of(item)), st),
            decreases self.recipes.len() - q,
        {
            let p = &self.recipes[q];
            let ghost prev = recipe_indices(self.recipes@.take(q as int), producer_of(item));
            assert(self.recipes@.take(q + 1).drop_last() =~= self.recipes@.take(q as int));
            assert(self.recipes@.take(q + 1).last() == self.recipes[q as int]);
            if self.is_viewer_recipe(p) && (vec_has_u16(&p.outputs, item) || vec_has_u16(&p.waste, item)) {
                assert(recipe_indices(self.recipes@.take(q + 1), producer_of(item)) == prev.push(p.index));
                assert(prev.push(p.index).drop_last() =~= prev);
                has = true;
                let pi = p.index as usize;
                if known[pi] {
                    let dp = depth[pi];
                    best = match best {
                        None => Some(dp),
                        Some(b) => Some(if b < dp { b } else { dp }),
                    };
                }
            }
            q += 1;
        }
        assert(self.recipes@.take(self.recipes.len() as int) =~= self.recipes@);
        (has, best)
    }

    /// Deepest resolved input of a recipe, or `None` while an input is unresolved.
    fn input_depth(&self, inputs: &Vec<u16>, depth: &Vec<u32>, known: &Vec<bool>) -> (r: Option<u32>)
        requires
            depth@.len() == self.recipes.len() + 1,
            known@.len() == self.recipes.len() + 1,
            forall|k: int| 0 <= k < self.recipes.len() ==> #[trigger] self.recipes[k].index == k + 1,
        ensures
            r == eval_inputs(self.recipes@, inputs@, (depth@, known@)),
    {
        let ghost st: DepthState = (depth@, known@);
        let mut max_in: u32 = 0;
        let mut m: usize = 0;
        while m < inputs.len()
            invariant
                m <= inputs@.len(),
                st == (depth@, known@),
                depth@.len() == self.recipes.len() + 1,
                known@.len() == self.recipes.len() + 1,
                forall|k: int| 0 <= k < self.recipes.len() ==> #[trigger] self.recipes[k].index == k + 1,
                eval_inputs(self.recipes@, inputs@.take(m as int), st) == Some(max_in),
            decreases inputs@.len() - m,
        {
            assert(inputs@.take(m + 1).drop_last() =~= inputs@.take(m as int));
            let (has, best) = self.producer_depth(inputs[m], depth, known);
            if has {
                match best {
                    Some(d) => {
                        if max_in < d {
                            max_in = d;
                        }
                    },
                    None => {
                        proof {
                            lemma_eval_none_extends(self.recipes@, inputs@, m + 1, st);
                        }
                        return None;
                    },
                }
            }
            m += 1;
        }
        assert(inputs@.take(inputs@.len() as int) =~= inputs@);
        Some(max_in)
    }

    /// Topological craft depth per recipe (0 = extract / no inputs), for
    /// every viewer recipe in table order.
    pub fn recipe_depths(&self) -> (r: Vec<(u16, u32)>)
        requires
            self.recipes.len() < u16::MAX,
            forall|k: int| 0 <= k < self.recipes.len() ==> #[trigger] self.recipes[k].index == k + 1,
        ensures
            r@ == craft_depths(self.recipes@),
    {
        let n = self.recipes.len();
        if n == 0 {
            return Vec::new();
        }
        let ghost recs = self.recipes@;
        let mut depth: Vec<u32> = Vec::new();
        let mut known: Vec<bool> = Vec::new();
        let mut i: usize = 0;
        while i < n + 1
            invariant
                n == self.recipes.len(),
                n < u16::MAX,
                i <= n + 1,
                depth@ == Seq::new(i as nat, |j: int| 99u32),
                known@ == Seq::new(i as nat, |j: int| false),
            decreases n + 1 - i,
        {
            depth.push(99);
            known.push(false);
            assert(depth@ =~= Seq::new((i + 1) as nat, |j: int| 99u32));
            assert(known@ =~= Seq::new((i + 1) as nat, |j: int| false));
            i += 1;
        }
        let ghost st0: DepthState = (depth@, known@);
        // Seed extraction / input-free recipes.
        let mut k: usize = 0;
        while k < n
            invariant
                n == self.recipes.len(),
                n < u16::MAX,
                recs == self.recipes@,
                k <= n,
                forall|j: int| 0 <= j < self.recipes.len() ==> #[trigger] self.recipes[j].index == j + 1,
                depth@.len() == n + 1,
                known@.len() == n + 1,
                (depth@, known@) == seed_depths(recs, k as int, st0),
            decreases n - k,
        {
            let r = &self.recipes[k];
            if self.is_viewer_recipe(r) && (r.inputs.len() == 0 || r.extracts.is_some()) {
                let ri = r.index as usize;
                depth[ri] = 0;
                known[ri] = true;
            }
            k += 1;
        }
        let ghost st1: DepthState = (depth@, known@);
        let rounds: usize = if n + 8 < 96 { n + 8 } else { 96 };
        let mut t: usize = 0;
        let mut stable = false;
        while t < rounds && !stable
            invariant
                n == self.recipes.len(),
                n < u16::MAX,
                recs == self.recipes@,
                t <= rounds,
                rounds == (if n + 8 < 96 { n + 8 } else { 96 }),
                forall|j: int| 0 <= j < self.recipes.len() ==> #[trigger] self.recipes[j].index == j + 1,
                depth@.len() == n + 1,
                known@.len() == n + 1,
                stable ==> settle(recs, rounds as nat, st1) == (depth@, known@),
                !stable ==> settle(recs, rounds as nat, st1) == settle(recs, (rounds - t) as nat, (depth@, known@)),
            decreases rounds - t, if stable { 0int } else { 1int },
        {
            let ghost start: DepthState = (depth@, known@);
            let mut changed = false;
            let mut k: usize = 0;
            while k < n
                invariant
                    n == self.recipes.len(),
                    n < u16::MAX,
                    recs == self.recipes@,
                    k <= n,
                    forall|j: int| 0 <= j < self.recipes.len() ==> #[trigger] self.recipes[j].index == j + 1,
                    depth@.len() == n + 1,
                    known@.len() == n + 1,
                    sweep(recs, k as int, start) == ((depth@, known@), changed),
                decreases n - k,
            {
                let r = &self.recipes[k];
                if self.is_viewer_recipe(r) && r.inputs.len() > 0 {
                    if let Some(m) = self.input_depth(&r.inputs, &depth, &known) {
                        let d: u32 = if m < 40 { m + 1 } else { 40 };
                        let ri = r.index as usize;
                        if !known[ri] || d < depth[ri] {
                            depth[ri] = d;
                            known[ri] = true;
                            changed = true;
                        }
                    }
                }
                k += 1;
            }
            if !changed {
                stable = true;
            } else {
                t += 1;
            }
        }
        // Park anything still unresolved.
        let ghost st2: DepthState = (depth@, known@);
        let mut k: usize = 0;
        while k < n
            invariant
                n == self.recipes.len(),
                n < u16::MAX,
                recs == self.recipes@,
                k <= n,
                forall|j: int| 0 <= j < self.recipes.len() ==> #[trigger] self.recipes[j].index == j + 1,
                depth@.len() == n + 1,
                known@.len() == n + 1,
                (depth@, known@) == park_unknown(recs, k as int, st2),
            decreases n - k,
        {
            let r = &self.recipes[k];
            let ri = r.index as usize;
            if self.is_viewer_recipe(r) && !known[ri] {
                depth[ri] = 30;
                known[ri] = true;
            }
            k += 1;
        }
        let ghost st3: DepthState = (depth@, known@);
        let mut out: Vec<(u16, u32)> = Vec::new();
        let mut k: usize = 0;
        while k < n
            invariant
                n == self.recipes.len(),
                recs == self.recipes@,
                k <= n,
                forall|j: int| 0 <= j < self.recipes.len() ==> #[trigger] self.recipes[j].index == j + 1,
                st3 == (depth@, known@),
                depth@.len() == n + 1,
                known@.len() == n + 1,
                out@ == depth_rows(recs, k as int, st3),
            decreases n - k,
        {
            let r = &self.recipes[k];
            let ri = r.index as usize;
            if self.is_viewer_recipe(r) && known[ri] {
                out.push((r.index, depth[ri]));
            }
            k += 1;
        }
        out
    }

    /// Edges recipe→recipe when an output (or waste) of `from` feeds an input
    /// of `to`, each edge once, in first-seen order.
    pub fn recipe_dependency_edges(&self) -> (r: Vec<(u16, u16)>)
        ensures
            r@ == dedup(raw_edges(self.recipes@, self.recipes@.len() as int)),
    {
        let n = self.recipes.len();
        let mut out: Vec<(u16, u16)> = Vec::new();
        let mut k: usize = 0;
        while k < n
            invariant
                n == self.recipes.len(),
                k <= n,
                out@ == dedup(raw_edges(self.recipes@, k as int)),
            decreases n - k,
        {
            let r = &self.recipes[k];
            let ghost base = raw_edges(self.recipes@, k as int);
            if self.is_viewer_recipe(r) {
                let mut m: usize = 0;
                while m < r.inputs.len()
                    invariant
                        n == self.recipes.len(),
                        k < n,
                        *r == self.recipes[k as int],
                        m <= r.inputs@.len(),
                        out@ == dedup(base + input_edges(self.recipes@, *r, m as int)),
                    decreases r.inputs@.len() - m,
                {
                    let item = r.inputs[m];
                    let ghost mid = base + input_edges(self.recipes@, *r, m as int);
                    let mut q: usize = 0;
                    while q < n
                        invariant
                            n == self.recipes.len(),
                            k < n,
                            *r == self.recipes[k as int],
                            m < r.inputs@.len(),
                            item == r.inputs@[m as int],
                            q <= n,
                            out@ == dedup(mid + prod_edges(self.recipes@, *r, item, q as int)),
                        decreases n - q,
                    {
                        let p = &self.recipes[q];
                        let ghost prev = mid + prod_edges(self.recipes@, *r, item, q as int);
                        if self.is_viewer_recipe(p) && (vec_has_u16(&p.outputs, item) || vec_has_u16(&p.waste, item))
                            && p.index != r.index {
                            let e = (p.index, r.index);
                            proof {
                                lemma_dedup_push(prev, e);
                                lemma_dedup_contains(prev, e);
                                assert(mid + prod_edges(self.recipes@, *r, item, q + 1) =~= prev.push(e));
                            }
                            if !vec_has_pair(&out, e) {
                                out.push(e);
                            }
                        } else {
                            assert(mid + prod_edges(self.recipes@, *r, item, q + 1) =~= prev);
                        }
                        q += 1;
                    }
                    assert(base + input_edges(self.recipes@, *r, m + 1) =~= mid + prod_edges(
                        self.recipes@,
                        *r,
                        item,
                        n as int,
                    ));
                    m += 1;
                }
                assert(raw_edges(self.recipes@, k + 1) =~= base + input_edges(
                    self.recipes@,
                    *r,
                    r.inputs@.len() as int,
                ));
            } else {
                assert(raw_edges(self.recipes@, k + 1) =~= base);
            }
            k += 1;
        }
        out
    }
}


/// The building an Era pack machine places as: walls, turrets, tanks, the
/// nexus, solar, labs, smelters and assemblers have kinds of their own;
/// every other machine is a generic crafting machine.
pub open spec fn machine_kind_of(id: Seq<char>) -> BuildingKind {
    if id == "era1_machine_wall"@ {
        BuildingKind::Wall
    } else if id == "era1_machine_reinforced_wall"@ {
        BuildingKind::ReinforcedWall
    } else if id == "era1_machine_ballistic_turret"@ {
        BuildingKind::BallisticTurret
    } else if id == "era1_machine_laser_turret"@ {
        BuildingKind::LaserTurret
    } else if id == "era1_machine_charge_cannon"@ {
        BuildingKind::Turret
    } else if id == "era1_machine_storage_tank"@ || id == "era1_machine_fluid_tank"@ {
        BuildingKind::FluidTank
    } else if id == "era1_machine_construction_site"@ {
        BuildingKind::NexusSite
    } else if id == "era1_machine_planetary_nexus"@ {
        BuildingKind::Nexus
    } else if id == "era1_machine_solar_panel_mk1"@ {
        BuildingKind::Solar
    } else if id == "era1_machine_research_laboratory"@ || id == "era1_machine_laboratory_module"@ {
        BuildingKind::Lab
    } else if id == "era1_machine_thermal_smelter_mk1"@ {
        BuildingKind::Smelter
    } else if id == "era1_machine_assembler_mk1"@ {
        BuildingKind::Assembler
    } else {
        BuildingKind::Machine
    }
}

/// The building kind a machine id places as.
pub fn machine_kind_for_id(id: &str) -> (r: BuildingKind)
    ensures
        r == machine_kind_of(id@),
{
    if str_eq(id, "era1_machine_wall") {
        BuildingKind::Wall
    } else if str_eq(id, "era1_machine_reinforced_wall") {
        BuildingKind::ReinforcedWall
    } else if str_eq(id, "era1_machine_ballistic_turret") {
        BuildingKind::BallisticTurret
    } else if str_eq(id, "era1_machine_laser_turret") {
        BuildingKind::LaserTurret
    } else if str_eq(id, "era1_machine_charge_cannon") {
        BuildingKind::Turret
    } else if str_eq(id, "era1_machine_storage_tank") || str_eq(id, "era1_machine_fluid_tank") {
        BuildingKind::FluidTank
    } else if str_eq(id, "era1_machine_construction_site") {
        BuildingKind::NexusSite
    } else if str_eq(id, "era1_machine_planetary_nexus") {
        BuildingKind::Nexus
    } else if str_eq(id, "era1_machine_solar_panel_mk1") {
        BuildingKind::Solar
    } else if str_eq(id, "era1_machine_research_laboratory") || str_eq(id, "era1_machine_laboratory_module") {
        BuildingKind::Lab
    } else if str_eq(id, "era1_machine_thermal_smelter_mk1") {
        BuildingKind::Smelter
    } else if str_eq(id, "era1_machine_assembler_mk1") {
        BuildingKind::Assembler
    } else {
        BuildingKind::Machine
    }
}

impl ContentRegistry {
    /// The building kind Era machine `mid` places as (an unknown index
    /// reads as an empty id, a generic machine).
    pub fn building_kind_for_era_machine(&self, mid: u16) -> (r: BuildingKind)
        ensures
            r == machine_kind_of(if (mid as int) < self.machine_ids.len() { self.machine_ids[mid as int]@ } else { Seq::empty() }),
    {
        if (mid as usize) < self.machine_ids.len() {
            machine_kind_for_id(self.machine_ids[mid as usize].as_str())
        } else {
            proof {
                reveal_strlit("");
                assert(""@ =~= Seq::<char>::empty());
            }
            machine_kind_for_id("")
        }
    }
}


/// The id's last `_`-separated part can stand for the item: 1 to 12 bytes.
pub open spec fn tail_fits(id: Seq<char>) -> bool {
    last_segment(id).len() > 0 && encode_utf8(last_segment(id)).len() <= 12
}

/// A short label for an item whose name is longer than 10 bytes and whose
/// id gives no usable tail is cut after 9 bytes of the name.
pub open spec fn short_cuts_name(it: RuntimeItem) -> bool {
    encode_utf8(it.name@).len() > 10 && !tail_fits(it.id@)
}

impl ContentRegistry {
    /// Short label of an item: its name when that is at most 10 bytes; else
    /// the last `_`-separated part of its id when that is 1 to 12 bytes;
    /// else the first 9 bytes of the name and `…`. `"?"` outside the table.
    pub fn short(&self, item: Item) -> (r: String)
        requires
            (item.0 as int) < self.items.len() ==> {
                let it = self.items[item.0 as int];
                &&& encode_utf8(it.name@).len() <= usize::MAX
                &&& encode_utf8(it.id@).len() <= usize::MAX
                &&& short_cuts_name(it) ==> is_char_boundary(encode_utf8(it.name@), 9)
            },
        ensures
            (item.0 as int) >= self.items.len() ==> r@ == "?"@,
            (item.0 as int) < self.items.len() ==> {
                let it = self.items[item.0 as int];
                if encode_utf8(it.name@).len() <= 10 {
                    r@ == it.name@
                } else if tail_fits(it.id@) {
                    r@ == last_segment(it.id@)
                } else {
                    r@.len() >= 1 && r@.last() == '…' && encode_utf8(r@.drop_last()) == encode_utf8(it.name@).subrange(0, 9)
                }
            },
    {
        if (item.0 as usize) >= self.items.len() {
            return String::from_str("?");
        }
        let it = &self.items[item.0 as usize];
        if it.name.as_str().len() <= 10 {
            return it.name.clone();
        }
        let tail = last_segment_of(it.id.as_str());
        proof {
            lemma_last_segment_bytes(it.id@);
        }
        if !tail.as_str().is_empty() && tail.as_str().len() <= 12 {
            return tail;
        }
        truncate(it.name.as_str(), 10)
    }
}

} // verus!
