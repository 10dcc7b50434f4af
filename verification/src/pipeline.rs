//! Multi-step extraction pipelines: steps that depend on one another, the
//! order in which they run, and how one step's results feed the next.

use vstd::prelude::*;
use vstd::string::*;
use vstd::utf8::encode_utf8;
use crate::data::{ExampleData, Extraction, CharInterval, strings_equal};
use crate::exceptions::{LangExtractError, LangExtractResult};
use crate::text::{push_str, bytes, byte_len};
use crate::chunking::{first_occurrence, find_from};
use crate::json::{json_number, json_number_value, json_array, json_array_value, json_object, json_object_value, entries_view};
use crate::schema::{json_string, json_string_value, json_str_of};
use serde_json::Value;
use crate::patterns::{regex_matches, regex_outcome};

verus! {

/// Which extractions of an earlier step a later step takes as input.
#[derive(Debug, Clone)]
pub struct PipelineFilter {
    /// Keep only extractions of this class.
    pub class_filter: Option<String>,
    /// Keep only extractions whose text matches this regular expression.
    pub text_pattern: Option<String>,
    /// Keep at most this many extractions.
    pub max_items: Option<usize>,
}

/// One step of a pipeline.
#[derive(Debug, Clone)]
pub struct PipelineStep {
    /// Unique identifier of the step.
    pub id: String,
    /// Human-readable name.
    pub name: String,
    /// What the step extracts.
    pub description: String,
    /// Worked examples for the step.
    pub examples: Vec<ExampleData>,
    /// The extraction prompt.
    pub prompt: String,
    /// Name of the output field for the step's results.
    pub output_field: String,
    /// Which extractions of the steps it depends on it takes.
    pub filter: Option<PipelineFilter>,
    /// Identifiers of the steps whose results this step reads.
    pub depends_on: Vec<String>,
}

/// The dependencies of a step, as texts.
pub open spec fn deps_view(s: PipelineStep) -> Seq<Seq<char>> {
    s.depends_on@.map_values(|d: String| d@)
}

/// The first position at or after `i` of a step with identifier `id`.
pub open spec fn first_step_from(steps: Seq<PipelineStep>, id: Seq<char>, i: int) -> Option<int>
    decreases steps.len() - i,
{
    if i < 0 || i >= steps.len() {
        None
    } else if steps[i].id@ == id {
        Some(i)
    } else {
        first_step_from(steps, id, i + 1)
    }
}

/// The first position of a step with identifier `id`.
pub open spec fn first_step(steps: Seq<PipelineStep>, id: Seq<char>) -> Option<int> {
    first_step_from(steps, id, 0)
}

/// What the step named `id` depends on: the dependencies of the first step
/// with that identifier, and nothing when there is none.
pub open spec fn deps_of(steps: Seq<PipelineStep>, id: Seq<char>) -> Seq<Seq<char>> {
    match first_step(steps, id) {
        Some(k) => deps_view(steps[k]),
        None => seq![],
    }
}

/// Each identifier of `p` depends on the next one.
pub open spec fn dependency_path(steps: Seq<PipelineStep>, p: Seq<Seq<char>>) -> bool {
    forall|i: int| 0 <= i < p.len() - 1 ==> #[trigger] deps_of(steps, p[i]).contains(p[i + 1])
}

/// `x` depends, directly or through other steps, on itself.
pub open spec fn on_cycle(steps: Seq<PipelineStep>, x: Seq<char>) -> bool {
    exists|p: Seq<Seq<char>>| p.len() >= 2 && p[0] == x && p.last() == x && dependency_path(steps, p)
}

/// No step depends on itself, directly or through other steps.
pub open spec fn acyclic(steps: Seq<PipelineStep>) -> bool {
    forall|x: Seq<char>| !on_cycle(steps, x)
}

/// The texts of a list of strings.
pub open spec fn texts(v: Seq<String>) -> Seq<Seq<char>> {
    v.map_values(|s: String| s@)
}

/// Every dependency of an identifier in `order` stands before it.
pub open spec fn dependencies_first(steps: Seq<PipelineStep>, order: Seq<Seq<char>>) -> bool {
    forall|i: int, k: int|
        0 <= i < order.len() && 0 <= k < deps_of(steps, order[i]).len() ==> #[trigger] order.subrange(
            0,
            i,
        ).contains(deps_of(steps, order[i])[k])
}

/// An order in which the steps can run: each identifier once, every
/// dependency before what depends on it, and every step present.
pub open spec fn is_execution_order(steps: Seq<PipelineStep>, order: Seq<Seq<char>>) -> bool {
    order.no_duplicates() && dependencies_first(steps, order) && forall|i: int|
        0 <= i < steps.len() ==> order.contains(#[trigger] steps[i].id@)
}

/// The message of the error for a dependency cycle through `id`.
pub open spec fn circular_message(id: Seq<char>) -> Seq<char> {
    "Circular dependency detected involving step: "@ + id
}

/// The error names, in [`circular_message`], a step that lies on a cycle.
pub open spec fn is_cycle_error(steps: Seq<PipelineStep>, e: LangExtractError) -> bool {
    e matches LangExtractError::ConfigurationError(m) && exists|x: Seq<char>|
        on_cycle(steps, x) && m@ == #[trigger] circular_message(x)
}

/// Every identifier that the steps mention, up to step `n`.
pub open spec fn ids_upto(steps: Seq<PipelineStep>, n: int) -> Seq<Seq<char>>
    decreases n,
{
    if n <= 0 || n > steps.len() {
        seq![]
    } else {
        ids_upto(steps, n - 1) + seq![steps[n - 1].id@] + deps_view(steps[n - 1])
    }
}

/// Every identifier that the steps mention, as steps or as dependencies.
pub open spec fn universe(steps: Seq<PipelineStep>) -> Set<Seq<char>> {
    ids_upto(steps, steps.len() as int).to_set()
}

proof fn lemma_ids_upto(steps: Seq<PipelineStep>, n: int, i: int)
    requires
        0 <= i < n <= steps.len(),
    ensures
        ids_upto(steps, n).contains(steps[i].id@),
        forall|d: Seq<char>| deps_view(steps[i]).contains(d) ==> ids_upto(steps, n).contains(d),
    decreases n,
{
    let prev = ids_upto(steps, n - 1);
    let cur = ids_upto(steps, n);
    assert(cur == prev + seq![steps[n - 1].id@] + deps_view(steps[n - 1]));
    if i < n - 1 {
        lemma_ids_upto(steps, n - 1, i);
        assert forall|d: Seq<char>| prev.contains(d) implies cur.contains(d) by {
            let j = choose|j: int| 0 <= j < prev.len() && prev[j] == d;
            assert(cur[j] == d);
        }
    } else {
        assert(cur[prev.len() as int] == steps[i].id@);
        assert forall|d: Seq<char>| deps_view(steps[i]).contains(d) implies cur.contains(d) by {
            let j = choose|j: int| 0 <= j < deps_view(steps[i]).len() && deps_view(steps[i])[j] == d;
            assert(cur[prev.len() + 1 + j] == d);
        }
    }
}

proof fn lemma_first_step_from(steps: Seq<PipelineStep>, id: Seq<char>, i: int)
    requires
        0 <= i,
    ensures
        match first_step_from(steps, id, i) {
            Some(k) => i <= k < steps.len() && steps[k].id@ == id && forall|j: int| i <= j < k ==> steps[j].id@ != id,
            None => forall|j: int| i <= j < steps.len() ==> steps[j].id@ != id,
        },
    decreases steps.len() - i,
{
    if i < steps.len() && steps[i].id@ != id {
        lemma_first_step_from(steps, id, i + 1);
    }
}

/// Identifiers named as a step or as a dependency lie in the universe.
proof fn lemma_in_universe(steps: Seq<PipelineStep>, id: Seq<char>)
    ensures
        first_step(steps, id) is Some ==> universe(steps).contains(id),
        forall|d: Seq<char>| deps_of(steps, id).contains(d) ==> universe(steps).contains(d),
{
    lemma_first_step_from(steps, id, 0);
    if let Some(k) = first_step(steps, id) {
        lemma_ids_upto(steps, steps.len() as int, k);
    }
}

/// The position of the first step with the identifier `id`.
fn find_step(steps: &Vec<PipelineStep>, id: &str) -> (r: Option<usize>)
    ensures
        match r {
            Some(k) => first_step(steps@, id@) == Some(k as int) && k < steps@.len() && steps@[k as int].id@ == id@,
            None => first_step(steps@, id@) is None,
        },
{
    proof {
        lemma_first_step_from(steps@, id@, 0);
    }
    let mut i: usize = 0;
    while i < steps.len()
        invariant
            i <= steps@.len(),
            first_step_from(steps@, id@, 0) == first_step_from(steps@, id@, i as int),
        decreases steps@.len() - i,
    {
        if strings_equal(steps[i].id.as_str(), id) {
            return Some(i);
        }
        i = i + 1;
    }
    None
}

/// Whether some string of the list has the text `id`.
fn holds_text(v: &Vec<String>, id: &str) -> (r: Option<usize>)
    ensures
        match r {
            Some(k) => k < v@.len() && v@[k as int]@ == id@,
            None => !texts(v@).contains(id@),
        },
{
    let mut i: usize = 0;
    while i < v.len()
        invariant
            i <= v@.len(),
            forall|j: int| 0 <= j < i ==> v@[j]@ != id@,
        decreases v@.len() - i,
    {
        if strings_equal(v[i].as_str(), id) {
            return Some(i);
        }
        i = i + 1;
    }
    proof {
        if texts(v@).contains(id@) {
            let j = choose|j: int| 0 <= j < texts(v@).len() && texts(v@)[j] == id@;
            assert(v@[j]@ == id@);
        }
    }
    None
}

proof fn lemma_len_bound(steps: Seq<PipelineStep>, v: Seq<Seq<char>>)
    requires
        v.no_duplicates(),
        forall|x: Seq<char>| v.contains(x) ==> universe(steps).contains(x),
    ensures
        v.len() <= universe(steps).len(),
{
    broadcast use vstd::seq_lib::seq_to_set_is_finite;

    v.unique_seq_to_set();
    assert(v.to_set().subset_of(universe(steps)));
    vstd::set_lib::lemma_len_subset(v.to_set(), universe(steps));
}

/// Appending `x` after all of its dependencies keeps dependencies first.
proof fn lemma_push_order(steps: Seq<PipelineStep>, order: Seq<Seq<char>>, x: Seq<char>)
    requires
        dependencies_first(steps, order),
        forall|k: int| 0 <= k < deps_of(steps, x).len() ==> order.contains(#[trigger] deps_of(steps, x)[k]),
    ensures
        dependencies_first(steps, order.push(x)),
{
    let o2 = order.push(x);
    assert forall|i: int, k: int|
        0 <= i < o2.len() && 0 <= k < deps_of(steps, o2[i]).len() implies #[trigger] o2.subrange(0, i).contains(
        deps_of(steps, o2[i])[k],
    ) by {
        if i < order.len() {
            assert(o2.subrange(0, i) =~= order.subrange(0, i));
            assert(order.subrange(0, i).contains(deps_of(steps, order[i])[k]));
        } else {
            assert(o2.subrange(0, i) =~= order);
            assert(order.contains(deps_of(steps, x)[k]));
        }
    }
}

/// An execution order leaves no room for a cycle.
proof fn lemma_order_acyclic(steps: Seq<PipelineStep>, order: Seq<Seq<char>>)
    requires
        is_execution_order(steps, order),
    ensures
        acyclic(steps),
{
    assert forall|x: Seq<char>| !on_cycle(steps, x) by {
        if on_cycle(steps, x) {
            let p = choose|p: Seq<Seq<char>>| p.len() >= 2 && p[0] == x && p.last() == x && dependency_path(steps, p);
            assert(deps_of(steps, p[0]).contains(p[1]));
            lemma_first_step_from(steps, x, 0);
            let k = first_step(steps, x)->0;
            assert(order.contains(steps[k].id@));
            let a0 = choose|a: int| 0 <= a < order.len() && order[a] == x;
            lemma_path_descends(steps, order, p, a0, p.len() - 1);
            let c = choose|c: int| 0 <= c < a0 && order.subrange(0, a0)[c] == p[p.len() - 1];
            assert(order[c] == order[a0]);
        }
    }
}

proof fn lemma_path_descends(steps: Seq<PipelineStep>, order: Seq<Seq<char>>, p: Seq<Seq<char>>, a0: int, i: int)
    requires
        is_execution_order(steps, order),
        dependency_path(steps, p),
        1 <= i < p.len(),
        0 <= a0 < order.len(),
        order[a0] == p[0],
    ensures
        order.subrange(0, a0).contains(p[i]),
    decreases i,
{
    assert(0 <= i - 1 < p.len() - 1);
    assert(deps_of(steps, p[i - 1]).contains(p[(i - 1) + 1]));
    let k = choose|k: int| 0 <= k < deps_of(steps, p[i - 1]).len() && #[trigger] deps_of(steps, p[i - 1])[k] == p[i];
    if i == 1 {
        assert(order.subrange(0, a0).contains(deps_of(steps, order[a0])[k]));
    } else {
        lemma_path_descends(steps, order, p, a0, i - 1);
        let b = choose|b: int| 0 <= b < a0 && order.subrange(0, a0)[b] == p[i - 1];
        assert(order[b] == p[i - 1]);
        assert(order.subrange(0, b).contains(deps_of(steps, order[b])[k]));
        let c = choose|c: int| 0 <= c < b && order.subrange(0, b)[c] == p[i];
        assert(order.subrange(0, a0)[c] == p[i]);
    }
}

fn circular_error(id: &str) -> (e: LangExtractError)
    ensures
        e matches LangExtractError::ConfigurationError(m) && m@ == circular_message(id@),
{
    let mut m = String::new();
    push_str(&mut m, "Circular dependency detected involving step: ");
    push_str(&mut m, id);
    LangExtractError::ConfigurationError(m)
}


/// Depth-first placement of step `id` after the steps placed in `order`,
/// with `visiting` the chain of steps whose dependencies are being placed:
/// a placed step stays where it is; a step met again on the chain closes a
/// cycle and is the error; else its dependencies are placed in their
/// order, then the step itself.
pub open spec fn dfs_visit(steps: Seq<PipelineStep>, id: Seq<char>, order: Seq<Seq<char>>, visiting: Seq<Seq<char>>) -> Result<Seq<Seq<char>>, Seq<char>>
    decreases universe(steps).len() - visiting.len(), 1nat, 0nat,
{
    if order.contains(id) {
        Ok(order)
    } else if visiting.contains(id) || visiting.len() >= universe(steps).len() {
        Err(id)
    } else {
        match dfs_deps(steps, deps_of(steps, id), 0, order, visiting.push(id)) {
            Ok(o) => Ok(o.push(id)),
            Err(x) => Err(x),
        }
    }
}

/// Depth-first placement of the dependencies `ds` from the `k`th on.
pub open spec fn dfs_deps(steps: Seq<PipelineStep>, ds: Seq<Seq<char>>, k: int, order: Seq<Seq<char>>, visiting: Seq<Seq<char>>) -> Result<Seq<Seq<char>>, Seq<char>>
    decreases universe(steps).len() - visiting.len(), 2nat, ds.len() - k,
{
    if k < 0 || k >= ds.len() {
        Ok(order)
    } else {
        match dfs_visit(steps, ds[k], order, visiting) {
            Ok(o) => dfs_deps(steps, ds, k + 1, o, visiting),
            Err(x) => Err(x),
        }
    }
}

/// Depth-first placement of the steps from the `i`th on, in their order.
pub open spec fn dfs_steps(steps: Seq<PipelineStep>, i: int, order: Seq<Seq<char>>) -> Result<Seq<Seq<char>>, Seq<char>>
    decreases steps.len() - i,
{
    if i < 0 || i >= steps.len() {
        Ok(order)
    } else {
        match dfs_visit(steps, steps[i].id@, order, seq![]) {
            Ok(o) => dfs_steps(steps, i + 1, o),
            Err(x) => Err(x),
        }
    }
}

/// Places `step_id` after its dependencies in `order`, depth first;
/// `visiting` holds the chain of steps whose dependencies are being placed.
fn visit_step(
    steps: &Vec<PipelineStep>,
    step_id: &str,
    order: &mut Vec<String>,
    visiting: &mut Vec<String>,
) -> (r: LangExtractResult<()>)
    requires
        texts(old(order)@).no_duplicates(),
        dependencies_first(steps@, texts(old(order)@)),
        texts(old(visiting)@).no_duplicates(),
        dependency_path(steps@, texts(old(visiting)@) + seq![step_id@]),
        forall|x: Seq<char>| texts(old(visiting)@).contains(x) ==> !texts(old(order)@).contains(x),
        forall|x: Seq<char>| texts(old(visiting)@).contains(x) ==> universe(steps@).contains(x),
        universe(steps@).contains(step_id@),
    ensures
        match r {
            Ok(()) => final(visiting)@ == old(visiting)@ && texts(final(order)@).no_duplicates()
                && dependencies_first(steps@, texts(final(order)@)) && texts(final(order)@).contains(step_id@)
                && (forall|x: Seq<char>| texts(old(order)@).contains(x) ==> texts(final(order)@).contains(x))
                && (forall|x: Seq<char>| texts(old(visiting)@).contains(x) ==> !texts(final(order)@).contains(x)),
            Err(e) => is_cycle_error(steps@, e),
        },
        match dfs_visit(steps@, step_id@, texts(old(order)@), texts(old(visiting)@)) {
            Ok(o) => r is Ok && texts(final(order)@) == o,
            Err(x) => r matches Err(LangExtractError::ConfigurationError(m)) && m@ == circular_message(x),
        },
    decreases universe(steps@).len() - old(visiting)@.len(),
{
    if holds_text(order, step_id).is_some() {
        proof {
            let k = choose|k: int| 0 <= k < order@.len() && order@[k]@ == step_id@;
            assert(texts(order@)[k] == step_id@);
        }
        return Ok(());
    }
    match holds_text(visiting, step_id) {
        Some(k) => {
            proof {
                let full = texts(visiting@) + seq![step_id@];
                let p = full.subrange(k as int, full.len() as int);
                assert forall|i: int| 0 <= i < p.len() - 1 implies #[trigger] deps_of(steps@, p[i]).contains(p[i + 1]) by {
                    assert(p[i] == full[k + i]);
                    assert(p[i + 1] == full[k + i + 1]);
                    assert(deps_of(steps@, full[k + i]).contains(full[k + i + 1]));
                }
                assert(p[0] == step_id@);
                assert(p.last() == step_id@);
                assert(on_cycle(steps@, step_id@));
                let v = texts(visiting@);
                assert(v[k as int] == step_id@);
                assert(v.contains(step_id@));
                if texts(order@).contains(step_id@) {
                    assert(false);
                }
            }
            let e = circular_error(step_id);
            return Err(e);
        },
        None => {},
    }
    let ghost v0 = visiting@;
    let ghost o0 = order@;
    let sid = step_id.to_string();
    let ghost gsid = sid;
    visiting.push(sid);
    proof {
        assert(texts(visiting@) =~= texts(v0) + seq![step_id@]);
        assert(texts(visiting@) =~= texts(v0).push(step_id@));
        lemma_len_bound(steps@, texts(visiting@));
        lemma_in_universe(steps@, step_id@);
        assert(!texts(v0).contains(step_id@));
        assert(!texts(o0).contains(step_id@));
        assert(dfs_visit(steps@, step_id@, texts(o0), texts(v0)) == match dfs_deps(steps@, deps_of(steps@, step_id@), 0, texts(o0), texts(visiting@)) {
            Ok(o) => Ok::<Seq<Seq<char>>, Seq<char>>(o.push(step_id@)),
            Err(x) => Err(x),
        });
    }
    match find_step(steps, step_id) {
        Some(k) => {
            let n = steps[k].depends_on.len();
            let mut j: usize = 0;
            while j < n
                invariant
                    n == steps@[k as int].depends_on@.len(),
                    first_step(steps@, step_id@) == Some(k as int),
                    j <= n,
                    visiting@ == v0.push(gsid),
                    v0 == old(visiting)@,
                    k < steps@.len(),
                    v0.len() + 1 <= universe(steps@).len(),
                    gsid@ == step_id@,
                    texts(visiting@) == texts(v0) + seq![step_id@],
                    texts(visiting@).no_duplicates(),
                    dependency_path(steps@, texts(visiting@)),
                    texts(visiting@).len() < universe(steps@).len() + 1,
                    forall|x: Seq<char>| texts(visiting@).contains(x) ==> universe(steps@).contains(x),
                    forall|d: Seq<char>| deps_of(steps@, step_id@).contains(d) ==> universe(steps@).contains(d),
                    texts(order@).no_duplicates(),
                    dependencies_first(steps@, texts(order@)),
                    forall|x: Seq<char>| texts(visiting@).contains(x) ==> !texts(order@).contains(x),
                    forall|x: Seq<char>| texts(o0).contains(x) ==> texts(order@).contains(x),
                    forall|jj: int| 0 <= jj < j ==> texts(order@).contains(#[trigger] deps_view(steps@[k as int])[jj]),
                    deps_of(steps@, step_id@) == deps_view(steps@[k as int]),
                    o0 == old(order)@,
                    dfs_visit(steps@, step_id@, texts(o0), texts(v0)) == match dfs_deps(steps@, deps_of(steps@, step_id@), 0, texts(o0), texts(visiting@)) {
                        Ok(o) => Ok::<Seq<Seq<char>>, Seq<char>>(o.push(step_id@)),
                        Err(x) => Err(x),
                    },
                    dfs_deps(steps@, deps_of(steps@, step_id@), 0, texts(o0), texts(visiting@)) == dfs_deps(
                        steps@,
                        deps_of(steps@, step_id@),
                        j as int,
                        texts(order@),
                        texts(visiting@),
                    ),
                decreases n - j,
            {
                let dep = &steps[k].depends_on[j];
                proof {
                    assert(deps_view(steps@[k as int])[j as int] == dep@);
                    assert(deps_of(steps@, step_id@).contains(dep@));
                    let full = texts(visiting@) + seq![dep@];
                    assert forall|i: int| 0 <= i < full.len() - 1 implies #[trigger] deps_of(steps@, full[i]).contains(full[i + 1]) by {
                        if i < full.len() - 2 {
                            assert(full[i] == texts(visiting@)[i]);
                            assert(full[i + 1] == texts(visiting@)[i + 1]);
                        } else {
                            assert(full[i] == step_id@);
                        }
                    }
                }
                let ghost ob = texts(order@);
                let ghost vb = texts(visiting@);
                let res = visit_step(steps, dep.as_str(), order, visiting);
                match res {
                    Err(e) => {
                        proof {
                            assert(dep@ == deps_of(steps@, step_id@)[j as int]);
                            assert(dfs_visit(steps@, dep@, ob, vb) is Err);
                            let x = dfs_visit(steps@, dep@, ob, vb)->Err_0;
                            assert(dfs_deps(steps@, deps_of(steps@, step_id@), j as int, ob, vb) == Err::<Seq<Seq<char>>, Seq<char>>(x));
                        }
                        return Err(e);
                    },
                    Ok(()) => {
                        proof {
                            assert(dep@ == deps_of(steps@, step_id@)[j as int]);
                        }
                    },
                }
                j = j + 1;
            }
            proof {
                assert(dfs_deps(steps@, deps_of(steps@, step_id@), j as int, texts(order@), texts(visiting@)) == Ok::<Seq<Seq<char>>, Seq<char>>(texts(order@)));
            }
        },
        None => {
            proof {
                assert(deps_of(steps@, step_id@) =~= seq![]);
                assert(texts(order@) == texts(o0));
            }
        },
    }
    proof {
        assert(dfs_deps(steps@, deps_of(steps@, step_id@), 0, texts(o0), texts(v0).push(step_id@)) == Ok::<Seq<Seq<char>>, Seq<char>>(texts(order@)));
    }
    visiting.pop();
    proof {
        assert(!texts(v0).contains(step_id@));
        assert(visiting@ =~= v0);
        assert(!texts(order@).contains(step_id@)) by {
            assert(texts(v0 .push(gsid)).last() == step_id@);
        }
    }
    let ghost o1 = texts(order@);
    order.push(step_id.to_string());
    proof {
        assert(texts(order@) =~= o1.push(step_id@));
        lemma_push_order(steps@, o1, step_id@);
        assert(texts(order@).last() == step_id@);
        assert(texts(order@).no_duplicates()) by {
            assert forall|a: int, b: int| 0 <= a < b < texts(order@).len() implies texts(order@)[a] != texts(order@)[b] by {
                if b == o1.len() {
                    assert(o1.contains(o1[a]));
                }
            }
        }
        assert forall|x: Seq<char>| texts(v0).contains(x) implies !texts(order@).contains(x) by {
            assert(texts(v0 .push(gsid)).contains(x)) by {
                let i = choose|i: int| 0 <= i < texts(v0).len() && texts(v0)[i] == x;
                assert(texts(v0 .push(gsid))[i] == x);
            }
            if texts(order@).contains(x) {
                let i = choose|i: int| 0 <= i < texts(order@).len() && texts(order@)[i] == x;
                if i < o1.len() {
                    assert(o1[i] == x);
                }
            }
        }
        assert(o0 == old(order)@);
        assert forall|x: Seq<char>| texts(o0).contains(x) implies texts(order@).contains(x) by {
            let i = choose|i: int| 0 <= i < o1.len() && o1[i] == x;
            assert(texts(order@)[i] == x);
        }
        assert(texts(order@).contains(step_id@));
        assert(dependencies_first(steps@, texts(order@)));
    }
    Ok(())
}

/// The order in which the steps run, found depth first in the order the
/// steps are listed ([`dfs_steps`]): every step after the steps it depends
/// on. Fails with a configuration error naming a step on a cycle exactly
/// when the dependencies form one.
pub fn resolve_execution_order(steps: &Vec<PipelineStep>) -> (r: LangExtractResult<Vec<String>>)
    ensures
        match dfs_steps(steps@, 0, seq![]) {
            Ok(o) => r matches Ok(order) && texts(order@) == o,
            Err(x) => r matches Err(LangExtractError::ConfigurationError(m)) && m@ == circular_message(x),
        },
        match r {
            Ok(order) => is_execution_order(steps@, texts(order@)),
            Err(e) => is_cycle_error(steps@, e),
        },
        r is Ok <==> acyclic(steps@),
{
    let mut order: Vec<String> = Vec::new();
    let mut visiting: Vec<String> = Vec::new();
    let mut i: usize = 0;
    proof {
        assert(texts(order@) =~= seq![]);
        assert(texts(visiting@) =~= seq![]);
    }
    while i < steps.len()
        invariant
            i <= steps@.len(),
            visiting@.len() == 0,
            texts(order@).no_duplicates(),
            dependencies_first(steps@, texts(order@)),
            forall|j: int| 0 <= j < i ==> texts(order@).contains(#[trigger] steps@[j].id@),
            dfs_steps(steps@, 0, seq![]) == dfs_steps(steps@, i as int, texts(order@)),
        decreases steps@.len() - i,
    {
        proof {
            assert(texts(visiting@) =~= seq![]);
            assert(texts(visiting@) + seq![steps@[i as int].id@] =~= seq![steps@[i as int].id@]);
            lemma_first_step_from(steps@, steps@[i as int].id@, 0);
            lemma_in_universe(steps@, steps@[i as int].id@);
        }
        let ghost ob = texts(order@);
        let res = visit_step(steps, steps[i].id.as_str(), &mut order, &mut visiting);
        proof {
            assert(texts(Seq::<String>::empty()) =~= Seq::<Seq<char>>::empty());
        }
        match res {
            Err(e) => {
                proof {
                    assert(dfs_visit(steps@, steps@[i as int].id@, ob, seq![]) is Err);
                }
                return Err(e);
            },
            Ok(()) => {},
        }
        i = i + 1;
    }
    proof {
        lemma_order_acyclic(steps@, texts(order@));
    }
    Ok(order)
}

/// The identifiers of the steps.
pub open spec fn step_ids(steps: Seq<PipelineStep>) -> Seq<Seq<char>> {
    steps.map_values(|s: PipelineStep| s.id@)
}

/// A step can run once the steps in `completed` have: it has not run yet
/// and everything it depends on has.
pub open spec fn ready(completed: Set<Seq<char>>, s: PipelineStep) -> bool {
    !completed.contains(s.id@) && forall|k: int| 0 <= k < deps_view(s).len() ==> completed.contains(#[trigger] deps_view(s)[k])
}

/// The identifiers of the ready steps among the first `n`, in order.
pub open spec fn ready_ids(steps: Seq<PipelineStep>, completed: Set<Seq<char>>, n: int) -> Seq<Seq<char>>
    decreases n,
{
    if n <= 0 || n > steps.len() {
        seq![]
    } else if ready(completed, steps[n - 1]) {
        ready_ids(steps, completed, n - 1).push(steps[n - 1].id@)
    } else {
        ready_ids(steps, completed, n - 1)
    }
}

/// The next wave: the identifiers of all steps that are ready.
pub open spec fn next_wave(steps: Seq<PipelineStep>, completed: Set<Seq<char>>) -> Seq<Seq<char>> {
    ready_ids(steps, completed, steps.len() as int)
}

/// The waves that run once the steps in `completed` have: each wave holds
/// every step that is ready after the waves before it, until every step
/// has run; `None` when some steps can never run.
pub open spec fn waves_from(steps: Seq<PipelineStep>, completed: Set<Seq<char>>) -> Option<Seq<Seq<Seq<char>>>>
    decreases step_ids(steps).to_set().difference(completed).len(),
    via waves_from_decreases
{
    if step_ids(steps).to_set().subset_of(completed) {
        Some(seq![])
    } else {
        let w = next_wave(steps, completed);
        if w.len() == 0 {
            None
        } else {
            match waves_from(steps, completed.union(w.to_set())) {
                Some(rest) => Some(seq![w] + rest),
                None => None,
            }
        }
    }
}

proof fn lemma_ready_ids(steps: Seq<PipelineStep>, completed: Set<Seq<char>>, n: int)
    requires
        0 <= n <= steps.len(),
    ensures
        forall|x: Seq<char>| #[trigger] ready_ids(steps, completed, n).contains(x) ==> step_ids(steps).contains(x) && !completed.contains(x),
    decreases n,
{
    if n > 0 {
        lemma_ready_ids(steps, completed, n - 1);
        let prev = ready_ids(steps, completed, n - 1);
        assert forall|x: Seq<char>| #[trigger] ready_ids(steps, completed, n).contains(x) implies step_ids(steps).contains(x) && !completed.contains(x) by {
            if ready(completed, steps[n - 1]) {
                let cur = prev.push(steps[n - 1].id@);
                let i = choose|i: int| 0 <= i < cur.len() && cur[i] == x;
                if i < prev.len() {
                    assert(prev[i] == x);
                    assert(ready_ids(steps, completed, n - 1).contains(x));
                } else {
                    assert(step_ids(steps)[n - 1] == x);
                }
            } else {
                assert(ready_ids(steps, completed, n - 1).contains(x));
            }
        }
    }
}

#[via_fn]
proof fn waves_from_decreases(steps: Seq<PipelineStep>, completed: Set<Seq<char>>) {
    let ids = step_ids(steps).to_set();
    if !ids.subset_of(completed) {
        let w = next_wave(steps, completed);
        if w.len() != 0 {
            lemma_wave_shrinks(steps, completed);
        }
    }
}

/// A wave that is not empty leaves fewer steps to run.
proof fn lemma_wave_shrinks(steps: Seq<PipelineStep>, completed: Set<Seq<char>>)
    requires
        next_wave(steps, completed).len() != 0,
    ensures
        step_ids(steps).to_set().difference(completed.union(next_wave(steps, completed).to_set())).len()
            < step_ids(steps).to_set().difference(completed).len(),
{
    broadcast use vstd::seq_lib::seq_to_set_is_finite;

    let ids = step_ids(steps).to_set();
    {
        let w = next_wave(steps, completed);
        {
            lemma_ready_ids(steps, completed, steps.len() as int);
            assert(w.contains(w[0]));
            let d = ids.difference(completed);
            let d2 = ids.difference(completed.union(w.to_set()));
            assert(d2.subset_of(d.remove(w[0])));
            vstd::set_lib::lemma_len_subset(d2, d.remove(w[0]));
            assert(d.contains(w[0]));
        }
    }
}

/// Whether every dependency of the step is among `completed`.
fn deps_completed(step: &PipelineStep, completed: &Vec<String>) -> (r: bool)
    ensures
        r == forall|k: int|
            0 <= k < deps_view(*step).len() ==> texts(completed@).to_set().contains(#[trigger] deps_view(*step)[k]),
{
    let mut j: usize = 0;
    while j < step.depends_on.len()
        invariant
            j <= step.depends_on@.len(),
            forall|k: int| 0 <= k < j ==> texts(completed@).to_set().contains(#[trigger] deps_view(*step)[k]),
        decreases step.depends_on@.len() - j,
    {
        if holds_text(completed, step.depends_on[j].as_str()).is_none() {
            proof {
                assert(deps_view(*step)[j as int] == step.depends_on@[j as int]@);
            }
            return false;
        }
        proof {
            let k = choose|k: int| 0 <= k < completed@.len() && completed@[k]@ == step.depends_on@[j as int]@;
            assert(texts(completed@)[k] == deps_view(*step)[j as int]);
        }
        j = j + 1;
    }
    true
}

/// Whether every step is among `completed`.
fn steps_completed(steps: &Vec<PipelineStep>, completed: &Vec<String>) -> (r: bool)
    ensures
        r == step_ids(steps@).to_set().subset_of(texts(completed@).to_set()),
{
    let mut i: usize = 0;
    while i < steps.len()
        invariant
            i <= steps@.len(),
            forall|k: int| 0 <= k < i ==> texts(completed@).to_set().contains(#[trigger] step_ids(steps@)[k]),
        decreases steps@.len() - i,
    {
        if holds_text(completed, steps[i].id.as_str()).is_none() {
            proof {
                assert(step_ids(steps@).to_set().contains(step_ids(steps@)[i as int]));
            }
            return false;
        }
        proof {
            let k = choose|k: int| 0 <= k < completed@.len() && completed@[k]@ == steps@[i as int].id@;
            assert(texts(completed@)[k] == step_ids(steps@)[i as int]);
        }
        i = i + 1;
    }
    proof {
        assert forall|x: Seq<char>| step_ids(steps@).to_set().contains(x) implies texts(completed@).to_set().contains(x) by {
            let k = choose|k: int| 0 <= k < step_ids(steps@).len() && step_ids(steps@)[k] == x;
        }
    }
    true
}

/// The message of the error for steps that can never run.
pub open spec fn waves_error_message() -> Seq<char> {
    "Unable to resolve execution waves - possible circular dependency"@
}

/// The texts of each list in a list of lists.
pub open spec fn text_lists(v: Seq<Vec<String>>) -> Seq<Seq<Seq<char>>> {
    v.map_values(|w: Vec<String>| texts(w@))
}

/// The waves in which the steps can run, each holding the steps whose
/// dependencies ran in earlier waves, as [`waves_from`] describes. Fails
/// with a configuration error when some steps can never run.
pub fn resolve_execution_waves(steps: &Vec<PipelineStep>) -> (r: LangExtractResult<Vec<Vec<String>>>)
    ensures
        match r {
            Ok(waves) => waves_from(steps@, Set::empty()) == Some(text_lists(waves@)),
            Err(e) => waves_from(steps@, Set::empty()) is None && e == LangExtractError::ConfigurationError(
                e->ConfigurationError_0,
            ) && e->ConfigurationError_0@ == waves_error_message(),
        },
{
    let mut waves: Vec<Vec<String>> = Vec::new();
    let mut completed: Vec<String> = Vec::new();
    proof {
        assert(texts(completed@).to_set() =~= Set::empty());
        assert(text_lists(waves@) =~= seq![]);
        match waves_from(steps@, Set::empty()) {
            Some(rest) => assert(seq![] + rest =~= rest),
            None => {},
        }
    }
    while !steps_completed(steps, &completed)
        invariant
            waves_from(steps@, Set::empty()) == match waves_from(steps@, texts(completed@).to_set()) {
                Some(rest) => Some(text_lists(waves@) + rest),
                None => None,
            },
        decreases step_ids(steps@).to_set().difference(texts(completed@).to_set()).len(),
    {
        let ghost cset = texts(completed@).to_set();
        let mut wave: Vec<String> = Vec::new();
        let mut i: usize = 0;
        while i < steps.len()
            invariant
                i <= steps@.len(),
                cset == texts(completed@).to_set(),
                texts(wave@) == ready_ids(steps@, cset, i as int),
            decreases steps@.len() - i,
        {
            let done = holds_text(&completed, steps[i].id.as_str()).is_some();
            if !done && deps_completed(&steps[i], &completed) {
                proof {
                    if cset.contains(steps@[i as int].id@) {
                        let k = choose|k: int| 0 <= k < texts(completed@).len() && texts(completed@)[k] == steps@[i as int].id@;
                        assert(completed@[k]@ == steps@[i as int].id@);
                    }
                }
                wave.push(steps[i].id.clone());
                proof {
                    assert(texts(wave@) =~= ready_ids(steps@, cset, i as int).push(steps@[i as int].id@));
                }
            } else {
                proof {
                    if done {
                        let k = choose|k: int| 0 <= k < completed@.len() && completed@[k]@ == steps@[i as int].id@;
                        assert(texts(completed@)[k] == steps@[i as int].id@);
                    }
                }
            }
            i = i + 1;
        }
        if wave.len() == 0 {
            let e = LangExtractError::configuration("Unable to resolve execution waves - possible circular dependency");
            return Err(e);
        }
        proof {
            lemma_wave_shrinks(steps@, cset);
        }
        let ghost w = texts(wave@);
        let ghost c0 = completed@;
        let mut j: usize = 0;
        while j < wave.len()
            invariant
                j <= wave@.len(),
                w == texts(wave@),
                completed@ == c0 + wave@.subrange(0, j as int),
            decreases wave@.len() - j,
        {
            completed.push(wave[j].clone());
            proof {
                assert(wave@.subrange(0, j + 1) =~= wave@.subrange(0, j as int).push(wave@[j as int]));
            }
            j = j + 1;
        }
        proof {
            assert(wave@.subrange(0, wave@.len() as int) =~= wave@);
            assert(texts(completed@).to_set() =~= cset.union(w.to_set())) by {
                let all = texts(completed@);
                let a = texts(c0);
                assert(all =~= a + w);
                assert forall|x: Seq<char>| all.contains(x) <==> (a.contains(x) || w.contains(x)) by {
                    if all.contains(x) {
                        let i = choose|i: int| 0 <= i < all.len() && all[i] == x;
                        if i < a.len() {
                            assert(a[i] == x);
                        } else {
                            assert(w[i - a.len()] == x);
                        }
                    }
                    if a.contains(x) {
                        let i = choose|i: int| 0 <= i < a.len() && a[i] == x;
                        assert(all[i] == x);
                    }
                    if w.contains(x) {
                        let i = choose|i: int| 0 <= i < w.len() && w[i] == x;
                        assert(all[a.len() + i] == x);
                    }
                }
            }
            assert(text_lists(waves@.push(wave)) =~= text_lists(waves@).push(w));
            match waves_from(steps@, texts(completed@).to_set()) {
                Some(rest) => {
                    assert(text_lists(waves@).push(w) + rest =~= text_lists(waves@) + (seq![w] + rest));
                },
                None => {},
            }
        }
        waves.push(wave);
    }
    proof {
        match waves_from(steps@, texts(completed@).to_set()) {
            Some(rest) => {
                assert(rest =~= seq![]);
                assert(text_lists(waves@) + rest =~= text_lists(waves@));
            },
            None => {},
        }
    }
    Ok(waves)
}

/// An extraction passes a filter when its class is the one asked for, if
/// any, and its text matches the pattern, if there is one that compiles.
pub open spec fn passes_filter(f: PipelineFilter, e: Extraction) -> bool {
    (match f.class_filter {
        Some(c) => e.extraction_class@ == c@,
        None => true,
    }) && (match f.text_pattern {
        Some(p) => regex_outcome(p@, e.extraction_text@) != Some(false),
        None => true,
    })
}

/// The extractions among the first `n` that pass the filter, in order.
pub open spec fn passing(es: Seq<Extraction>, f: PipelineFilter, n: int) -> Seq<Extraction>
    decreases n,
{
    if n <= 0 || n > es.len() {
        seq![]
    } else if passes_filter(f, es[n - 1]) {
        passing(es, f, n - 1).push(es[n - 1])
    } else {
        passing(es, f, n - 1)
    }
}

/// At most `max` items of the sequence, from its start.
pub open spec fn at_most(s: Seq<Extraction>, max: Option<usize>) -> Seq<Extraction> {
    match max {
        Some(m) => if m < s.len() { s.take(m as int) } else { s },
        None => s,
    }
}

/// What a filter keeps of a list of extractions: those that pass it, up to
/// its maximum count; everything when there is no filter.
pub open spec fn filtered(es: Seq<Extraction>, filter: Option<PipelineFilter>) -> Seq<Extraction> {
    match filter {
        Some(f) => at_most(passing(es, f, es.len() as int), f.max_items),
        None => es,
    }
}

/// The extractions that a step's filter lets through, in order.
pub fn apply_filter<'a>(extractions: &'a Vec<Extraction>, filter: &Option<PipelineFilter>) -> (r: Vec<&'a Extraction>)
    ensures
        r@.map_values(|e: &Extraction| *e) == filtered(extractions@, *filter),
{
    let mut out: Vec<&Extraction> = Vec::new();
    let mut i: usize = 0;
    match filter {
        None => {
            while i < extractions.len()
                invariant
                    i <= extractions@.len(),
                    out@.map_values(|e: &Extraction| *e) == extractions@.subrange(0, i as int),
                decreases extractions@.len() - i,
            {
                let ghost before = out@;
                out.push(&extractions[i]);
                proof {
                    assert(out@.map_values(|e: &Extraction| *e) =~= before.map_values(|e: &Extraction| *e).push(
                        extractions@[i as int],
                    ));
                    assert(extractions@.subrange(0, i + 1) =~= extractions@.subrange(0, i as int).push(
                        extractions@[i as int],
                    ));
                }
                i = i + 1;
            }
            proof {
                assert(extractions@.subrange(0, i as int) =~= extractions@);
            }
        },
        Some(f) => {
            while i < extractions.len()
                invariant
                    i <= extractions@.len(),
                    out@.map_values(|e: &Extraction| *e) == at_most(passing(extractions@, *f, i as int), f.max_items),
                decreases extractions@.len() - i,
            {
                let e = &extractions[i];
                let class_ok = match &f.class_filter {
                    Some(c) => strings_equal(e.extraction_class.as_str(), c.as_str()),
                    None => true,
                };
                let keep = class_ok && match &f.text_pattern {
                    Some(p) => match regex_matches(p.as_str(), e.extraction_text.as_str()) {
                        Some(false) => false,
                        _ => true,
                    },
                    None => true,
                };
                let ghost before = out@;
                let ghost prev = passing(extractions@, *f, i as int);
                proof {
                    assert(keep == passes_filter(*f, extractions@[i as int]));
                }
                if keep {
                    let room = match f.max_items {
                        Some(m) => out.len() < m,
                        None => true,
                    };
                    if room {
                        out.push(e);
                        proof {
                            assert(out@.map_values(|e: &Extraction| *e) =~= before.map_values(|e: &Extraction| *e).push(
                                extractions@[i as int],
                            ));
                            assert(prev.take(prev.len() as int) =~= prev);
                            assert(prev.push(extractions@[i as int]).take(prev.len() as int + 1) =~= prev.push(extractions@[i as int]));
                        }
                    } else {
                        proof {
                            let m = f.max_items->0;
                            assert(prev.push(extractions@[i as int]).take(m as int) =~= prev.take(m as int));
                        }
                    }
                }
                i = i + 1;
            }
        },
    }
    out
}

/// One piece of input for a step: the text to process and, for a step that
/// reads an earlier step's results, where that text came from.
#[derive(Debug, Clone)]
pub struct StepInputItem {
    /// The text to process.
    pub text: String,
    /// Byte offset of the text in the original document, if known.
    pub parent_start: Option<usize>,
    /// Byte offset of the end of the text in the original document, if known.
    pub parent_end: Option<usize>,
    /// The step whose extraction the text is.
    pub parent_step_id: Option<String>,
    /// The class of that extraction.
    pub parent_class: Option<String>,
    /// The text of that extraction.
    pub parent_text: Option<String>,
}

/// The start of an extraction's position, if known.
pub open spec fn start_of(e: Extraction) -> Option<usize> {
    match e.char_interval {
        Some(ci) => ci.start_pos,
        None => None,
    }
}

/// The end of an extraction's position, if known.
pub open spec fn end_of(e: Extraction) -> Option<usize> {
    match e.char_interval {
        Some(ci) => ci.end_pos,
        None => None,
    }
}

/// The input item made of extraction `e` of step `dep`.
pub open spec fn is_item_for(it: StepInputItem, dep: Seq<char>, e: Extraction) -> bool {
    it.text@ == e.extraction_text@ && it.parent_start == start_of(e) && it.parent_end == end_of(e)
        && (it.parent_step_id matches Some(d) && d@ == dep) && (it.parent_class matches Some(c) && c@
        == e.extraction_class@) && (it.parent_text matches Some(t) && t@ == e.extraction_text@)
}

/// The results recorded for a step so far, empty when there are none.
pub open spec fn results_of(context: Seq<(String, Vec<Extraction>)>, id: Seq<char>) -> Seq<Extraction> {
    match crate::data::lookup(context, id) {
        Some(v) => v@,
        None => seq![],
    }
}

/// The sources of a dependent step's input, for its first `j`
/// dependencies: each dependency with each of its results that the filter
/// lets through.
pub open spec fn input_sources(step: PipelineStep, context: Seq<(String, Vec<Extraction>)>, j: int) -> Seq<(Seq<char>, Extraction)>
    decreases j,
{
    if j <= 0 || j > step.depends_on@.len() {
        seq![]
    } else {
        let dep = step.depends_on@[j - 1]@;
        input_sources(step, context, j - 1) + filtered(results_of(context, dep), step.filter).map_values(
            |e: Extraction| (dep, e),
        )
    }
}

/// The input of a step: the original text for a step without dependencies;
/// else one item for each extraction of the steps it depends on that its
/// filter lets through, dependency by dependency.
pub fn prepare_step_input(
    step: &PipelineStep,
    original_text: &str,
    context_data: &Vec<(String, Vec<Extraction>)>,
) -> (r: LangExtractResult<Vec<StepInputItem>>)
    ensures
        r matches Ok(items) && (if step.depends_on@.len() == 0 {
            items@.len() == 1 && items@[0].text@ == original_text@ && items@[0].parent_start == Some(0usize)
                && items@[0].parent_end == Some(bytes(original_text).len() as usize) && items@[0].parent_step_id is None
                && items@[0].parent_class is None && items@[0].parent_text is None
        } else {
            let src = input_sources(*step, context_data@, step.depends_on@.len() as int);
            items@.len() == src.len() && forall|i: int| 0 <= i < src.len() ==> is_item_for(#[trigger] items@[i], src[i].0, src[i].1)
        }),
{
    if step.depends_on.len() == 0 {
        let mut v: Vec<StepInputItem> = Vec::new();
        v.push(StepInputItem {
            text: original_text.to_string(),
            parent_start: Some(0),
            parent_end: Some(byte_len(original_text)),
            parent_step_id: None,
            parent_class: None,
            parent_text: None,
        });
        return Ok(v);
    }
    let mut inputs: Vec<StepInputItem> = Vec::new();
    let mut j: usize = 0;
    while j < step.depends_on.len()
        invariant
            j <= step.depends_on@.len(),
            inputs@.len() == input_sources(*step, context_data@, j as int).len(),
            forall|i: int| 0 <= i < inputs@.len() ==> is_item_for(#[trigger] inputs@[i], input_sources(*step, context_data@, j as int)[i].0, input_sources(*step, context_data@, j as int)[i].1),
        decreases step.depends_on@.len() - j,
    {
        let dep_id = &step.depends_on[j];
        let ghost prev = input_sources(*step, context_data@, j as int);
        let ghost base = inputs@;
        match crate::data::get_entry(context_data, dep_id.as_str()) {
            Some(extractions) => {
                let kept = apply_filter(extractions, &step.filter);
                let ghost ks = kept@.map_values(|e: &Extraction| *e);
                let mut k: usize = 0;
                while k < kept.len()
                    invariant
                        k <= kept@.len(),
                        ks == kept@.map_values(|e: &Extraction| *e),
                        inputs@.len() == base.len() + k,
                        forall|i: int| 0 <= i < base.len() ==> inputs@[i] == base[i],
                        forall|i: int| 0 <= i < k ==> is_item_for(#[trigger] inputs@[base.len() + i], dep_id@, ks[i]),
                    decreases kept@.len() - k,
                {
                    let extraction = kept[k];
                    let parent_start = match &extraction.char_interval {
                        Some(ci) => ci.start_pos,
                        None => None,
                    };
                    let parent_end = match &extraction.char_interval {
                        Some(ci) => ci.end_pos,
                        None => None,
                    };
                    inputs.push(StepInputItem {
                        text: extraction.extraction_text.clone(),
                        parent_start,
                        parent_end,
                        parent_step_id: Some(dep_id.clone()),
                        parent_class: Some(extraction.extraction_class.clone()),
                        parent_text: Some(extraction.extraction_text.clone()),
                    });
                    proof {
                        assert(ks[k as int] == *extraction);
                        assert(inputs@[base.len() + k] == inputs@.last());
                    }
                    k = k + 1;
                }
                proof {
                    assert(results_of(context_data@, dep_id@) == extractions@);
                    let add = filtered(results_of(context_data@, dep_id@), step.filter).map_values(|e: Extraction| (dep_id@, e));
                    assert(input_sources(*step, context_data@, j + 1) == prev + add);
                    assert forall|i: int| 0 <= i < inputs@.len() implies is_item_for(#[trigger] inputs@[i], (prev + add)[i].0, (prev + add)[i].1) by {
                        assert(base.len() == prev.len());
                        assert(ks == filtered(results_of(context_data@, dep_id@), step.filter));
                        if i >= base.len() {
                            assert(is_item_for(inputs@[base.len() + (i - base.len())], dep_id@, ks[i - base.len()]));
                            assert((prev + add)[i] == add[i - prev.len()]);
                        } else {
                            assert((prev + add)[i] == prev[i]);
                            assert(inputs@[i] == base[i]);
                        }
                    }
                }
            },
            None => {
                proof {
                    assert(results_of(context_data@, dep_id@) == Seq::<Extraction>::empty());
                    assert(filtered(Seq::<Extraction>::empty(), step.filter).len() == 0) by {
                        match step.filter {
                            Some(f) => {
                                assert(passing(Seq::<Extraction>::empty(), f, 0) =~= seq![]);
                            },
                            None => {},
                        }
                    }
                    let add = filtered(results_of(context_data@, dep_id@), step.filter).map_values(|e: Extraction| (dep_id@, e));
                    assert(input_sources(*step, context_data@, j + 1) =~= prev + add);
                    assert(prev + add =~= prev);
                }
            },
        }
        j = j + 1;
    }
    Ok(inputs)
}


/// The first byte offset at which `needle` occurs in `hay`.
pub fn find_text(hay: &str, needle: &str) -> (r: Option<usize>)
    ensures
        match r {
            Some(x) => first_occurrence(bytes(hay), bytes(needle), 0) == Some(x as int),
            None => first_occurrence(bytes(hay), bytes(needle), 0) is None,
        },
{
    find_from(hay.as_bytes(), needle.as_bytes(), 0)
}

/// Where an extraction of a dependent step lies in the original document:
/// its own position shifted by where its input text starts, when the model
/// gave both ends; else the first place its text occurs in the input text,
/// shifted likewise; else unknown.
pub open spec fn absolute_interval(ps: usize, item: StepInputItem, ex: Extraction) -> Option<CharInterval> {
    match ex.char_interval {
        Some(ci) if ci.start_pos is Some && ci.end_pos is Some => Some(
            CharInterval {
                start_pos: Some((ps + ci.start_pos->0) as usize),
                end_pos: Some((ps + ci.end_pos->0) as usize),
            },
        ),
        _ => match first_occurrence(encode_utf8(item.text@), encode_utf8(ex.extraction_text@), 0) {
            Some(f) => Some(
                CharInterval {
                    start_pos: Some((ps + f) as usize),
                    end_pos: Some((ps + f + encode_utf8(ex.extraction_text@).len()) as usize),
                },
            ),
            None => None,
        },
    }
}

/// The attribute that links an extraction to the input it came from, for
/// the key `k`, if it is one of the linking keys and the input records it.
pub open spec fn parent_attribute(item: StepInputItem, k: Seq<char>) -> Option<Value> {
    if k == "parent_step_id"@ {
        match item.parent_step_id {
            Some(p) => Some(json_string_value(p@)),
            None => None,
        }
    } else if k == "parent_start"@ {
        match item.parent_start {
            Some(p) => Some(json_number_value(Some(p as u64))),
            None => None,
        }
    } else if k == "parent_end"@ {
        match item.parent_end {
            Some(p) => Some(json_number_value(Some(p as u64))),
            None => None,
        }
    } else if k == "parent_class"@ {
        match item.parent_class {
            Some(p) => Some(json_string_value(p@)),
            None => None,
        }
    } else if k == "parent_text"@ {
        match item.parent_text {
            Some(p) => Some(json_string_value(p@)),
            None => None,
        }
    } else {
        None
    }
}

/// The attributes of an extraction, as a lookup by key.
pub open spec fn attribute_of(attrs: Option<Vec<(String, Value)>>, k: Seq<char>) -> Option<Value> {
    match attrs {
        Some(a) => crate::data::lookup(a@, k),
        None => None,
    }
}

/// The positions in an input item fit, shifted, in a `usize`.
pub open spec fn offsets_fit(item: StepInputItem, ex: Extraction) -> bool {
    match item.parent_start {
        Some(ps) => ps + encode_utf8(item.text@).len() <= usize::MAX && match ex.char_interval {
            Some(ci) => (ci.start_pos matches Some(ls) ==> ps + ls <= usize::MAX) && (ci.end_pos matches Some(le) ==> ps + le
                <= usize::MAX),
            None => true,
        },
        None => true,
    }
}

/// An extraction a step produced from one input item, placed in the
/// original document: for a dependent step whose input position is known,
/// its position becomes absolute ([`absolute_interval`]), and, when the
/// input came from an earlier step, it gains the attributes that link it to
/// that input ([`parent_attribute`]). Anything else is left as it was.
pub fn place_step_extraction(dependent: bool, item: &StepInputItem, ex: Extraction) -> (r: Extraction)
    requires
        ex.attributes matches Some(a) ==> crate::data::keys_distinct(a@),
        offsets_fit(*item, ex),
    ensures
        !(dependent && item.parent_start is Some) ==> r == ex,
        dependent && item.parent_start is Some ==> {
            &&& r.char_interval == match absolute_interval(item.parent_start->0, *item, ex) {
                Some(ci) => Some(ci),
                None => ex.char_interval,
            }
            &&& r.extraction_class == ex.extraction_class
            &&& r.extraction_text == ex.extraction_text
            &&& r.alignment_status == ex.alignment_status
            &&& r.extraction_index == ex.extraction_index
            &&& r.group_index == ex.group_index
            &&& r.description == ex.description
            &&& r.token_interval == ex.token_interval
            &&& item.parent_step_id is None ==> r.attributes == ex.attributes
            &&& item.parent_step_id is Some ==> (r.attributes matches Some(a) && crate::data::keys_distinct(a@))
            &&& item.parent_step_id is Some ==> forall|k: Seq<char>| #[trigger] attribute_of(r.attributes, k) == match parent_attribute(*item, k) {
                    Some(v) => Some(v),
                    None => attribute_of(ex.attributes, k),
                }
        },
{
    let mut ex = ex;
    if !dependent {
        return ex;
    }
    let ps = match item.parent_start {
        Some(p) => p,
        None => {
            return ex;
        },
    };
    let ghost ex0 = ex;
    let mut abs: Option<CharInterval> = None;
    match &ex.char_interval {
        Some(ci) => match (ci.start_pos, ci.end_pos) {
            (Some(ls), Some(le)) => {
                abs = Some(CharInterval::new(Some(ps + ls), Some(ps + le)));
            },
            _ => {},
        },
        None => {},
    }
    if abs.is_none() {
        match find_text(item.text.as_str(), ex.extraction_text.as_str()) {
            Some(found) => {
                proof {
                    crate::chunking::lemma_first_occurrence_bounds(encode_utf8(item.text@), encode_utf8(ex.extraction_text@), 0);
                }
                let start = ps + found;
                let end = start + byte_len(ex.extraction_text.as_str());
                abs = Some(CharInterval::new(Some(start), Some(end)));
            },
            None => {},
        }
    }
    match abs {
        Some(ai) => ex.set_char_interval(ai),
        None => {},
    }
    proof {
        assert(ex.char_interval == match absolute_interval(ps, *item, ex0) {
            Some(ci) => Some(ci),
            None => ex0.char_interval,
        });
    }
    match &item.parent_step_id {
        Some(parent_step_id) => {
            let ghost a0 = ex;
            if ex.attributes.is_none() {
                ex.attributes = Some(Vec::new());
                proof {
                    assert(crate::data::keys_distinct(ex.attributes->0@));
                }
            }
            let ghost a1 = ex;
            proof {
                assert forall|k: Seq<char>| attribute_of(a1.attributes, k) == attribute_of(a0.attributes, k) by {
                    if a0.attributes is None {
                        assert(a1.attributes->0@ =~= Seq::<(String, Value)>::empty());
                    }
                }
            }
            ex.set_attribute("parent_step_id".to_string(), json_string(parent_step_id.clone()));
            let ghost a2 = ex;
            match item.parent_start {
                Some(p) => ex.set_attribute("parent_start".to_string(), json_number(Some(p as u64))),
                None => {},
            }
            let ghost a3 = ex;
            match item.parent_end {
                Some(p) => ex.set_attribute("parent_end".to_string(), json_number(Some(p as u64))),
                None => {},
            }
            let ghost a4 = ex;
            match &item.parent_class {
                Some(p) => ex.set_attribute("parent_class".to_string(), json_string(p.clone())),
                None => {},
            }
            let ghost a5 = ex;
            match &item.parent_text {
                Some(p) => ex.set_attribute("parent_text".to_string(), json_string(p.clone())),
                None => {},
            }
            proof {
                reveal_strlit("parent_step_id");
                reveal_strlit("parent_start");
                reveal_strlit("parent_end");
                reveal_strlit("parent_class");
                reveal_strlit("parent_text");
                assert("parent_start"@[7] != "parent_class"@[7]);
                assert("parent_start"@ != "parent_class"@);
                assert("parent_step_id"@.len() != "parent_start"@.len());
                assert("parent_end"@.len() != "parent_start"@.len());
                assert("parent_text"@.len() != "parent_start"@.len());
                assert forall|k: Seq<char>| #[trigger] attribute_of(ex.attributes, k) == match parent_attribute(*item, k) {
                    Some(v) => Some(v),
                    None => attribute_of(ex0.attributes, k),
                } by {
                    assert(attribute_of(a2.attributes, k) == if k == "parent_step_id"@ {
                        Some(json_string_value(parent_step_id@))
                    } else {
                        attribute_of(a0.attributes, k)
                    });
                    assert(attribute_of(a3.attributes, k) == if k == "parent_start"@ && item.parent_start is Some {
                        Some(json_number_value(Some(item.parent_start->0 as u64)))
                    } else {
                        attribute_of(a2.attributes, k)
                    });
                    assert(attribute_of(a4.attributes, k) == if k == "parent_end"@ && item.parent_end is Some {
                        Some(json_number_value(Some(item.parent_end->0 as u64)))
                    } else {
                        attribute_of(a3.attributes, k)
                    });
                    assert(attribute_of(a5.attributes, k) == if k == "parent_class"@ && item.parent_class is Some {
                        Some(json_string_value(item.parent_class->0@))
                    } else {
                        attribute_of(a4.attributes, k)
                    });
                    assert(attribute_of(ex.attributes, k) == if k == "parent_text"@ && item.parent_text is Some {
                        Some(json_string_value(item.parent_text->0@))
                    } else {
                        attribute_of(a5.attributes, k)
                    });
                    assert(a0.attributes == ex0.attributes);
                }
            }
        },
        None => {},
    }
    ex
}

/// What one step of a pipeline produced.
#[derive(Debug, Clone)]
pub struct StepResult {
    /// The step's identifier.
    pub step_id: String,
    /// The step's name.
    pub step_name: String,
    /// The extractions the step produced.
    pub extractions: Vec<Extraction>,
    /// How long the step took, in milliseconds.
    pub processing_time_ms: u64,
    /// How many input items the step processed.
    pub input_count: usize,
    /// Whether the step succeeded.
    pub success: bool,
    /// Why the step failed, if it did.
    pub error_message: Option<String>,
}

/// The message of the error for a failed step.
pub open spec fn step_failed_message(step_id: Seq<char>, error_message: Option<String>) -> Seq<char> {
    "Step '"@ + step_id + "' failed: "@ + match error_message {
        Some(m) => m@,
        None => "Unknown error"@,
    }
}

/// The error that stops a pipeline when one of its steps fails.
pub fn step_failed_error(step_id: &str, error_message: &Option<String>) -> (e: LangExtractError)
    ensures
        e matches LangExtractError::ConfigurationError(m) && m@ == step_failed_message(step_id@, *error_message),
{
    let mut m = String::new();
    push_str(&mut m, "Step '");
    push_str(&mut m, step_id);
    push_str(&mut m, "' failed: ");
    match error_message {
        Some(msg) => push_str(&mut m, msg.as_str()),
        None => push_str(&mut m, "Unknown error"),
    }
    LangExtractError::ConfigurationError(m)
}

/// Whether a pipeline run goes on after a step: it does when the step
/// succeeded, and stops with [`step_failed_error`] when it failed.
pub fn check_step_result(step_id: &str, result: &StepResult) -> (r: LangExtractResult<()>)
    ensures
        result.success ==> r is Ok,
        !result.success ==> (r matches Err(LangExtractError::ConfigurationError(m)) && m@ == step_failed_message(
            step_id@,
            result.error_message,
        )),
{
    if result.success {
        Ok(())
    } else {
        Err(step_failed_error(step_id, &result.error_message))
    }
}

/// The result of running `step` on `input_count` items: with no error, a
/// success holding the extractions; with an error, a failure that holds its
/// message and no extractions, as a step stops at the first item that fails.
pub fn step_result(step: &PipelineStep, extractions: Vec<Extraction>, input_count: usize, processing_time_ms: u64, error: Option<String>) -> (r: StepResult)
    ensures
        r.step_id == step.id,
        r.step_name == step.name,
        r.input_count == input_count,
        r.processing_time_ms == processing_time_ms,
        r.success == (error is None),
        r.error_message == error,
        error is None ==> r.extractions == extractions,
        error is Some ==> r.extractions@.len() == 0,
{
    let success = error.is_none();
    let kept = if success { extractions } else { Vec::new() };
    StepResult {
        step_id: step.id.clone(),
        step_name: step.name.clone(),
        extractions: kept,
        processing_time_ms,
        input_count,
        success,
        error_message: error,
    }
}

/// The message of the error for a step that is not in the pipeline.
pub open spec fn step_not_found_message(step_id: Seq<char>) -> Seq<char> {
    "Step '"@ + step_id + "' not found"@
}

/// The position of the first step with the given identifier, or a
/// configuration error when there is none.
pub fn find_pipeline_step(steps: &Vec<PipelineStep>, step_id: &str) -> (r: LangExtractResult<usize>)
    ensures
        match r {
            Ok(k) => first_step(steps@, step_id@) == Some(k as int) && k < steps@.len(),
            Err(e) => first_step(steps@, step_id@) is None && (e matches LangExtractError::ConfigurationError(m) && m@
                == step_not_found_message(step_id@)),
        },
{
    match find_step(steps, step_id) {
        Some(k) => Ok(k),
        None => {
            let mut m = String::new();
            push_str(&mut m, "Step '");
            push_str(&mut m, step_id);
            push_str(&mut m, "' not found");
            Err(LangExtractError::ConfigurationError(m))
        },
    }
}

/// An optional `usize` as an optional `u64`.
pub open spec fn opt_u64(o: Option<usize>) -> Option<u64> {
    match o {
        Some(x) => Some(x as u64),
        None => None,
    }
}

/// The JSON object of an extraction in the nested output: its class and
/// text, and the ends of its position when it has one.
pub open spec fn extraction_json(e: Extraction) -> Value {
    json_object_value(
        seq![("class"@, json_string_value(e.extraction_class@)), ("text"@, json_string_value(e.extraction_text@))]
            + match e.char_interval {
            Some(ci) => seq![("start"@, json_number_value(opt_u64(ci.start_pos))), ("end"@, json_number_value(opt_u64(ci.end_pos)))],
            None => seq![],
        },
    )
}

/// The JSON object of a step in the nested output: its extractions, their
/// number and the step's processing time.
pub open spec fn step_json(r: StepResult) -> Value {
    json_object_value(
        seq![
            ("extractions"@, json_array_value(r.extractions@.map_values(|e: Extraction| extraction_json(e)))),
            ("count"@, json_number_value(Some(r.extractions@.len() as u64))),
            ("processing_time_ms"@, json_number_value(Some(r.processing_time_ms))),
        ],
    )
}

/// The entries of the nested output for the first `n` results: one for each
/// successful step, keyed by its identifier.
pub open spec fn nested_entries(rs: Seq<StepResult>, n: int) -> Seq<(Seq<char>, Value)>
    decreases n,
{
    if n <= 0 || n > rs.len() {
        seq![]
    } else if rs[n - 1].success {
        nested_entries(rs, n - 1).push((rs[n - 1].step_id@, step_json(rs[n - 1])))
    } else {
        nested_entries(rs, n - 1)
    }
}

fn extraction_to_json(e: &Extraction) -> (v: Value)
    ensures
        v == extraction_json(*e),
{
    let mut obj: Vec<(String, Value)> = Vec::new();
    obj.push(("class".to_string(), json_string(e.extraction_class.clone())));
    obj.push(("text".to_string(), json_string(e.extraction_text.clone())));
    match &e.char_interval {
        Some(interval) => {
            let s = match interval.start_pos {
                Some(x) => Some(x as u64),
                None => None,
            };
            let t = match interval.end_pos {
                Some(x) => Some(x as u64),
                None => None,
            };
            obj.push(("start".to_string(), json_number(s)));
            obj.push(("end".to_string(), json_number(t)));
        },
        None => {},
    }
    proof {
        let want = seq![("class"@, json_string_value(e.extraction_class@)), ("text"@, json_string_value(e.extraction_text@))]
            + match e.char_interval {
            Some(ci) => seq![("start"@, json_number_value(opt_u64(ci.start_pos))), ("end"@, json_number_value(opt_u64(ci.end_pos)))],
            None => seq![],
        };
        assert(entries_view(obj@) =~= want);
    }
    json_object(obj)
}

/// The nested output of a pipeline: a JSON object with an entry for each
/// successful step, as [`nested_entries`] and [`step_json`] describe.
pub fn build_nested_output(step_results: &Vec<StepResult>) -> (r: LangExtractResult<Value>)
    ensures
        r == Ok::<Value, LangExtractError>(json_object_value(nested_entries(step_results@, step_results@.len() as int))),
{
    let mut output: Vec<(String, Value)> = Vec::new();
    let mut i: usize = 0;
    while i < step_results.len()
        invariant
            i <= step_results@.len(),
            entries_view(output@) == nested_entries(step_results@, i as int),
        decreases step_results@.len() - i,
    {
        let result = &step_results[i];
        let ghost before = output@;
        if result.success {
            let mut items: Vec<Value> = Vec::new();
            let mut k: usize = 0;
            while k < result.extractions.len()
                invariant
                    k <= result.extractions@.len(),
                    items@ == result.extractions@.subrange(0, k as int).map_values(|e: Extraction| extraction_json(e)),
                decreases result.extractions@.len() - k,
            {
                let v = extraction_to_json(&result.extractions[k]);
                items.push(v);
                proof {
                    assert(result.extractions@.subrange(0, k + 1).map_values(|e: Extraction| extraction_json(e))
                        =~= result.extractions@.subrange(0, k as int).map_values(|e: Extraction| extraction_json(e)).push(v));
                }
                k = k + 1;
            }
            proof {
                assert(result.extractions@.subrange(0, k as int) =~= result.extractions@);
            }
            let count = result.extractions.len() as u64;
            let mut step_output: Vec<(String, Value)> = Vec::new();
            step_output.push(("extractions".to_string(), json_array(items)));
            step_output.push(("count".to_string(), json_number(Some(count))));
            step_output.push(("processing_time_ms".to_string(), json_number(Some(result.processing_time_ms))));
            proof {
                assert(entries_view(step_output@) =~= seq![
                    ("extractions"@, json_array_value(result.extractions@.map_values(|e: Extraction| extraction_json(e)))),
                    ("count"@, json_number_value(Some(result.extractions@.len() as u64))),
                    ("processing_time_ms"@, json_number_value(Some(result.processing_time_ms))),
                ]);
            }
            let v = json_object(step_output);
            output.push((result.step_id.clone(), v));
            proof {
                assert(entries_view(output@) =~= entries_view(before).push((result.step_id@, v)));
            }
        }
        i = i + 1;
    }
    Ok(json_object(output))
}

fn example(text: &str, extractions: Vec<Extraction>) -> (e: ExampleData)
    ensures
        e.text@ == text@,
        e.extractions == extractions,
{
    ExampleData::new(text.to_string(), extractions)
}

/// The extraction holds just a class and a text.
pub open spec fn bare_extraction(e: Extraction, class: Seq<char>, text: Seq<char>) -> bool {
    &&& e.extraction_class@ == class
    &&& e.extraction_text@ == text
    &&& e.char_interval is None
    &&& e.alignment_status is None
    &&& e.extraction_index is None
    &&& e.group_index is None
    &&& e.description is None
    &&& e.attributes is None
    &&& e.token_interval is None
}

/// The extractions hold just the classes and texts of `pairs`, in order.
pub open spec fn bare_extractions(es: Seq<Extraction>, pairs: Seq<(Seq<char>, Seq<char>)>) -> bool {
    es.len() == pairs.len() && forall|i: int| 0 <= i < es.len() ==> bare_extraction(#[trigger] es[i], pairs[i].0, pairs[i].1)
}

/// The step has one example: the sample requirement with extractions of
/// the classes and texts of `pairs`.
pub open spec fn sample_example(s: PipelineStep, pairs: Seq<(Seq<char>, Seq<char>)>) -> bool {
    &&& s.examples@.len() == 1
    &&& s.examples@[0].text@ == "The system shall process 100 transactions per second and maintain 99.9% uptime."@
    &&& bare_extractions(s.examples@[0].extractions@, pairs)
}

fn extraction(class: &str, text: &str) -> (e: Extraction)
    ensures
        bare_extraction(e, class@, text@),
{
    Extraction::new(class.to_string(), text.to_string())
}

fn requirement_filter() -> (f: Option<PipelineFilter>)
    ensures
        f matches Some(x) && x.class_filter matches Some(c) && c@ == "requirement"@ && x.text_pattern is None
            && x.max_items is None,
{
    Some(PipelineFilter { class_filter: Some("requirement".to_string()), text_pattern: None, max_items: None })
}

/// The steps of the sample requirements pipeline: one that extracts
/// requirements from the document, then two that read its requirements,
/// one for values and units, one for specifications and constraints.
pub fn requirements_pipeline_steps() -> (steps: Vec<PipelineStep>)
    ensures
        steps@.len() == 3,
        steps@[0].id@ == "extract_requirements"@,
        steps@[0].name@ == "Extract Requirements"@,
        steps@[0].output_field@ == "requirements"@,
        steps@[0].filter is None,
        steps@[0].depends_on@.len() == 0,
        steps@[1].id@ == "extract_values"@,
        steps@[1].name@ == "Extract Values"@,
        steps@[1].output_field@ == "values"@,
        steps@[2].id@ == "extract_specifications"@,
        steps@[2].name@ == "Extract Specifications"@,
        steps@[2].output_field@ == "specifications"@,
        forall|i: int| 1 <= i < 3 ==> {
            &&& deps_view(#[trigger] steps@[i]) == seq!["extract_requirements"@]
            &&& steps@[i].filter matches Some(f) && f.class_filter matches Some(c) && c@ == "requirement"@
            &&& steps@[i].filter matches Some(f) && f.text_pattern is None && f.max_items is None
        },
        steps@[0].description@ == "Extract all 'shall' statements and requirements from the document"@,
        steps@[0].prompt@
            == "Extract all requirements, 'shall' statements, and specifications from the text. Include the complete statement."@,
        sample_example(
            steps@[0],
            seq![("requirement"@, "The system shall process 100 transactions per second and maintain 99.9% uptime."@)],
        ),
        steps@[1].description@ == "Extract numeric values, units, and specifications from requirements"@,
        steps@[1].prompt@
            == "From this requirement, extract all numeric values and their associated units or specifications."@,
        sample_example(
            steps@[1],
            seq![("value"@, "100"@), ("unit"@, "transactions per second"@), ("value"@, "99.9"@), ("unit"@, "%"@)],
        ),
        steps@[2].description@ == "Extract detailed specifications and constraints from requirements"@,
        steps@[2].prompt@ == "Extract detailed specifications, constraints, and performance requirements from this text."@,
        sample_example(
            steps@[2],
            seq![("specification"@, "process 100 transactions per second"@), ("constraint"@, "maintain 99.9% uptime"@)],
        ),
{
    let sample = "The system shall process 100 transactions per second and maintain 99.9% uptime.";
    let mut steps: Vec<PipelineStep> = Vec::new();

    let mut ex0: Vec<ExampleData> = Vec::new();
    ex0.push(example(sample, vec![extraction("requirement", sample)]));
    steps.push(PipelineStep {
        id: "extract_requirements".to_string(),
        name: "Extract Requirements".to_string(),
        description: "Extract all 'shall' statements and requirements from the document".to_string(),
        examples: ex0,
        prompt: "Extract all requirements, 'shall' statements, and specifications from the text. Include the complete statement.".to_string(),
        output_field: "requirements".to_string(),
        filter: None,
        depends_on: Vec::new(),
    });

    let mut ex1: Vec<ExampleData> = Vec::new();
    ex1.push(example(sample, vec![
        extraction("value", "100"),
        extraction("unit", "transactions per second"),
        extraction("value", "99.9"),
        extraction("unit", "%"),
    ]));
    let mut deps1: Vec<String> = Vec::new();
    deps1.push("extract_requirements".to_string());
    steps.push(PipelineStep {
        id: "extract_values".to_string(),
        name: "Extract Values".to_string(),
        description: "Extract numeric values, units, and specifications from requirements".to_string(),
        examples: ex1,
        prompt: "From this requirement, extract all numeric values and their associated units or specifications.".to_string(),
        output_field: "values".to_string(),
        filter: requirement_filter(),
        depends_on: deps1,
    });

    let mut ex2: Vec<ExampleData> = Vec::new();
    ex2.push(example(sample, vec![
        extraction("specification", "process 100 transactions per second"),
        extraction("constraint", "maintain 99.9% uptime"),
    ]));
    let mut deps2: Vec<String> = Vec::new();
    deps2.push("extract_requirements".to_string());
    steps.push(PipelineStep {
        id: "extract_specifications".to_string(),
        name: "Extract Specifications".to_string(),
        description: "Extract detailed specifications and constraints from requirements".to_string(),
        examples: ex2,
        prompt: "Extract detailed specifications, constraints, and performance requirements from this text.".to_string(),
        output_field: "specifications".to_string(),
        filter: requirement_filter(),
        depends_on: deps2,
    });
    proof {
        assert(deps_view(steps@[1]) =~= seq!["extract_requirements"@]);
        assert(deps_view(steps@[2]) =~= seq!["extract_requirements"@]);
    }
    steps
}

proof fn lemma_ready_in_wave(steps: Seq<PipelineStep>, completed: Set<Seq<char>>, n: int, i: int)
    requires
        0 <= i < n <= steps.len(),
    ensures
        ready(completed, steps[i]) ==> ready_ids(steps, completed, n).contains(steps[i].id@),
        ready_ids(steps, completed, n).contains(steps[i].id@) ==> exists|j: int|
            0 <= j < n && steps[j].id@ == steps[i].id@ && ready(completed, #[trigger] steps[j]),
    decreases n,
{
    let prev = ready_ids(steps, completed, n - 1);
    if i < n - 1 {
        lemma_ready_in_wave(steps, completed, n - 1, i);
    }
    if ready(completed, steps[n - 1]) {
        let cur = prev.push(steps[n - 1].id@);
        assert(cur[prev.len() as int] == steps[n - 1].id@);
        if prev.contains(steps[i].id@) {
            let j = choose|j: int| 0 <= j < prev.len() && prev[j] == steps[i].id@;
            assert(cur[j] == steps[i].id@);
        }
        if cur.contains(steps[i].id@) && !prev.contains(steps[i].id@) {
            let j = choose|j: int| 0 <= j < cur.len() && cur[j] == steps[i].id@;
            if j < prev.len() {
                assert(prev[j] == steps[i].id@);
            }
        }
    }
    if i == n - 1 && n - 1 > 0 {
        if prev.contains(steps[i].id@) {
            lemma_ready_ids_source(steps, completed, n - 1, steps[i].id@);
        }
    } else if i == n - 1 {
        assert(prev =~= seq![]);
    }
}

proof fn lemma_ready_ids_source(steps: Seq<PipelineStep>, completed: Set<Seq<char>>, n: int, x: Seq<char>)
    requires
        0 <= n <= steps.len(),
        ready_ids(steps, completed, n).contains(x),
    ensures
        exists|j: int| 0 <= j < n && steps[j].id@ == x && ready(completed, #[trigger] steps[j]),
    decreases n,
{
    let prev = ready_ids(steps, completed, n - 1);
    if n > 0 {
        if prev.contains(x) {
            lemma_ready_ids_source(steps, completed, n - 1, x);
            let j = choose|j: int| 0 <= j < n - 1 && steps[j].id@ == x && ready(completed, #[trigger] steps[j]);
            assert(0 <= j < n);
        } else if ready(completed, steps[n - 1]) {
            let cur = prev.push(steps[n - 1].id@);
            let j = choose|j: int| 0 <= j < cur.len() && cur[j] == x;
            if j < prev.len() {
                assert(prev[j] == x);
            }
            assert(steps[n - 1].id@ == x);
        }
    }
}

/// `x` is in one of the first `a` waves.
pub open spec fn in_earlier_wave(ws: Seq<Seq<Seq<char>>>, a: int, x: Seq<char>) -> bool {
    exists|b: int| 0 <= b < a && #[trigger] ws[b].contains(x)
}

/// `x` is among `completed` or in one of the first `a` waves.
pub open spec fn done_before(completed: Set<Seq<char>>, ws: Seq<Seq<Seq<char>>>, a: int, x: Seq<char>) -> bool {
    completed.contains(x) || exists|b: int| 0 <= b < a && #[trigger] ws[b].contains(x)
}

proof fn lemma_waves_from_respect(steps: Seq<PipelineStep>, completed: Set<Seq<char>>, ws: Seq<Seq<Seq<char>>>, i: int)
    requires
        waves_from(steps, completed) == Some(ws),
        0 <= i < steps.len(),
        step_ids(steps).no_duplicates(),
        !completed.contains(steps[i].id@),
    ensures
        exists|a: int| 0 <= a < ws.len() && #[trigger] ws[a].contains(steps[i].id@) && forall|k: int|
            0 <= k < deps_view(steps[i]).len() ==> done_before(completed, ws, a, #[trigger] deps_view(steps[i])[k]),
    decreases step_ids(steps).to_set().difference(completed).len(),
{
    assert(step_ids(steps)[i] == steps[i].id@);
    assert(step_ids(steps).to_set().contains(steps[i].id@));
    let w = next_wave(steps, completed);
    lemma_ready_in_wave(steps, completed, steps.len() as int, i);
    let rest = waves_from(steps, completed.union(w.to_set()))->0;
    assert(ws == seq![w] + rest);
    assert(ws[0] == w);
    if ready(completed, steps[i]) {
        assert(ws[0].contains(steps[i].id@));
    } else {
        if w.contains(steps[i].id@) {
            let j = choose|j: int|
                0 <= j < steps.len() && steps[j].id@ == steps[i].id@ && ready(completed, #[trigger] steps[j]);
            assert(step_ids(steps)[j] == step_ids(steps)[i]);
        }
        lemma_wave_shrinks(steps, completed);
        lemma_waves_from_respect(steps, completed.union(w.to_set()), rest, i);
        let a = choose|a: int| 0 <= a < rest.len() && #[trigger] rest[a].contains(steps[i].id@) && forall|k: int|
            0 <= k < deps_view(steps[i]).len() ==> done_before(completed.union(w.to_set()), rest, a, #[trigger] deps_view(steps[i])[k]);
        assert(ws[a + 1] == rest[a]);
        assert forall|k: int| 0 <= k < deps_view(steps[i]).len() implies done_before(completed, ws, a + 1, #[trigger] deps_view(steps[i])[k]) by {
            let d = deps_view(steps[i])[k];
            assert(done_before(completed.union(w.to_set()), rest, a, d));
            if completed.union(w.to_set()).contains(d) {
                if !completed.contains(d) {
                    assert(ws[0].contains(d));
                }
            } else {
                let b = choose|b: int| 0 <= b < a && #[trigger] rest[b].contains(d);
                assert(ws[b + 1] == rest[b]);
            }
        }
    }
}

/// Steps in one wave can run side by side: when the waves resolve and the
/// step identifiers are distinct, every step is in some wave, and every
/// step it depends on is in an earlier wave.
pub proof fn lemma_waves_respect_dependencies(steps: Seq<PipelineStep>, ws: Seq<Seq<Seq<char>>>, i: int)
    requires
        waves_from(steps, Set::empty()) == Some(ws),
        0 <= i < steps.len(),
        step_ids(steps).no_duplicates(),
    ensures
        exists|a: int| 0 <= a < ws.len() && #[trigger] ws[a].contains(steps[i].id@) && forall|k: int|
            0 <= k < deps_view(steps[i]).len() ==> in_earlier_wave(ws, a, #[trigger] deps_view(steps[i])[k]),
{
    lemma_waves_from_respect(steps, Set::empty(), ws, i);
    let a = choose|a: int| 0 <= a < ws.len() && #[trigger] ws[a].contains(steps[i].id@) && forall|k: int|
        0 <= k < deps_view(steps[i]).len() ==> done_before(Set::empty(), ws, a, #[trigger] deps_view(steps[i])[k]);
    assert forall|k: int| 0 <= k < deps_view(steps[i]).len() implies in_earlier_wave(ws, a, #[trigger] deps_view(steps[i])[k]) by {
        assert(done_before(Set::empty(), ws, a, deps_view(steps[i])[k]));
    }
}

} // verus!
