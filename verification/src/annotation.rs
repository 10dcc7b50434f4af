//! What annotation decides around the model calls: whether it can start,
//! how chunks are batched, and the context that later passes are given.

use vstd::prelude::*;
use crate::data::{ExampleData, Extraction, strings_equal};
use crate::exceptions::{LangExtractError, LangExtractResult};
use crate::text::push_str;
use crate::visualization::classes_in_order;

verus! {

/// One batch of chunks: which chunks it holds and which of them are sent.
#[derive(Debug, Clone, Copy, PartialEq, Eq)]
pub struct BatchPlan {
    /// The batch's number, from 1.
    pub batch_number: usize,
    /// How many batches there are in all.
    pub total_batches: usize,
    /// The first chunk of the batch.
    pub start: usize,
    /// One past the last chunk of the batch.
    pub end: usize,
    /// One past the last chunk of the batch that is sent to the model.
    pub run_end: usize,
}

/// The number of batches of `batch_length` chunks that `total` chunks make.
pub open spec fn batch_count(total: nat, batch_length: nat) -> nat {
    if batch_length == 0 { 0 } else { ((total + batch_length - 1) / batch_length as int) as nat }
}

/// Batch `k` (from 0) of `total` chunks: `batch_length` consecutive chunks
/// (fewer in the last), of which the first `min(max_workers, batch_length)`
/// are sent.
pub open spec fn batch_at(total: nat, batch_length: nat, max_workers: nat, k: nat) -> BatchPlan {
    let start = k * batch_length;
    let end = if start + batch_length <= total { start + batch_length } else { total };
    let workers = if max_workers < batch_length { max_workers } else { batch_length };
    let run_end = if start + workers <= end { start + workers } else { end };
    BatchPlan {
        batch_number: (k + 1) as usize,
        total_batches: batch_count(total, batch_length) as usize,
        start: start as usize,
        end: end as usize,
        run_end: run_end as usize,
    }
}

/// The batches in which `total_chunks` chunks are processed: consecutive
/// runs of `batch_length` chunks, of which at most `max_workers` are sent
/// to the model at once.
pub fn batch_plan(total_chunks: usize, batch_length: usize, max_workers: usize) -> (v: Vec<BatchPlan>)
    requires
        batch_length > 0,
        total_chunks + batch_length - 1 <= usize::MAX,
    ensures
        v@.len() == batch_count(total_chunks as nat, batch_length as nat),
        forall|k: int| 0 <= k < v@.len() ==> #[trigger] v@[k] == batch_at(
            total_chunks as nat,
            batch_length as nat,
            max_workers as nat,
            k as nat,
        ),
{
    let total_batches = (total_chunks + (batch_length - 1)) / batch_length;
    let workers = if max_workers < batch_length { max_workers } else { batch_length };
    let mut v: Vec<BatchPlan> = Vec::new();
    let mut k: usize = 0;
    while k < total_batches
        invariant
            batch_length > 0,
            total_chunks + batch_length - 1 <= usize::MAX,
            total_batches == batch_count(total_chunks as nat, batch_length as nat),
            workers == (if max_workers < batch_length { max_workers } else { batch_length }),
            k <= total_batches,
            v@.len() == k,
            forall|q: int| 0 <= q < k ==> #[trigger] v@[q] == batch_at(total_chunks as nat, batch_length as nat, max_workers as nat, q as nat),
        decreases total_batches - k,
    {
        proof {
            lemma_batch_start(total_chunks as int, batch_length as int, k as int);
        }
        let start = k * batch_length;
        let end = if start + batch_length <= total_chunks { start + batch_length } else { total_chunks };
        let run_end = if start + workers <= end { start + workers } else { end };
        v.push(BatchPlan { batch_number: k + 1, total_batches, start, end, run_end });
        k = k + 1;
    }
    v
}

/// Every batch before the last starts within the chunks.
proof fn lemma_batch_start(t: int, b: int, k: int)
    requires
        b > 0,
        t >= 0,
        0 <= k < (t + b - 1) / b,
    ensures
        k * b < t,
{
    let c = (t + b - 1) / b;
    vstd::arithmetic::div_mod::lemma_fundamental_div_mod(t + b - 1, b);
    assert(c * b <= t + b - 1) by (nonlinear_arith)
        requires
            t + b - 1 == b * c + (t + b - 1) % b,
            (t + b - 1) % b >= 0,
    {
    }
    assert(k * b <= (c - 1) * b) by (nonlinear_arith)
        requires
            k <= c - 1,
            b > 0,
    {
    }
    assert((c - 1) * b == c * b - b) by (nonlinear_arith);
}

/// The message of the error for an extraction without examples.
pub open spec fn missing_examples_message() -> Seq<char> {
    "Examples are required for reliable extraction. Please provide at least one ExampleData object with sample extractions."@
}

/// An extraction needs at least one example: an invalid-input error when
/// there is none.
pub fn require_examples(examples: &[ExampleData]) -> (r: LangExtractResult<()>)
    ensures
        examples@.len() > 0 ==> r is Ok,
        examples@.len() == 0 ==> (r matches Err(LangExtractError::InvalidInput(m)) && m@ == missing_examples_message()),
{
    if examples.len() == 0 {
        return Err(LangExtractError::InvalidInput(
            "Examples are required for reliable extraction. Please provide at least one ExampleData object with sample extractions.".to_string(),
        ));
    }
    Ok(())
}

/// The texts joined with `, `.
pub open spec fn join_comma(s: Seq<Seq<char>>) -> Seq<char>
    decreases s.len(),
{
    if s.len() == 0 {
        seq![]
    } else if s.len() == 1 {
        s[0]
    } else {
        join_comma(s.drop_last()) + ", "@ + s.last()
    }
}

/// The texts of the extractions of class `c` among the first `n`, in order.
pub open spec fn class_texts(es: Seq<Extraction>, c: Seq<char>, n: int) -> Seq<Seq<char>>
    decreases n,
{
    if n <= 0 || n > es.len() {
        seq![]
    } else if es[n - 1].extraction_class@ == c {
        class_texts(es, c, n - 1).push(es[n - 1].extraction_text@)
    } else {
        class_texts(es, c, n - 1)
    }
}

/// The lines of the first `n` classes: each class with its texts.
pub open spec fn class_lines(es: Seq<Extraction>, cs: Seq<Seq<char>>, n: int) -> Seq<char>
    decreases n,
{
    if n <= 0 || n > cs.len() {
        seq![]
    } else {
        class_lines(es, cs, n - 1) + "\n- "@ + cs[n - 1] + ": "@ + join_comma(class_texts(es, cs[n - 1], es.len() as int))
    }
}

/// The context of a refinement pass: the base context, then, when there
/// were earlier extractions, their texts grouped by class (classes in the
/// order they first occur) and a request to look for what was missed.
pub open spec fn refinement_context_text(base: Seq<char>, es: Seq<Extraction>) -> Seq<char> {
    if es.len() == 0 {
        base
    } else {
        base + "\n\nPrevious extractions found:"@ + class_lines(es, classes_in_order(es), classes_in_order(es).len() as int)
            + "\n\nPlease look for additional entities that may have been missed, including related entities or different forms of the same information."@
    }
}

fn push_class_texts(out: &mut String, es: &[Extraction], class: &str)
    ensures
        final(out)@ == old(out)@ + join_comma(class_texts(es@, class@, es@.len() as int)),
{
    let ghost start = out@;
    let mut count: usize = 0;
    let mut i: usize = 0;
    while i < es.len()
        invariant
            i <= es@.len(),
            count == class_texts(es@, class@, i as int).len(),
            count <= i,
            out@ == start + join_comma(class_texts(es@, class@, i as int)),
        decreases es@.len() - i,
    {
        if strings_equal(es[i].extraction_class.as_str(), class) {
            let ghost prev = class_texts(es@, class@, i as int);
            if count > 0 {
                push_str(out, ", ");
            }
            push_str(out, es[i].extraction_text.as_str());
            proof {
                let cur = prev.push(es@[i as int].extraction_text@);
                assert(cur.drop_last() =~= prev);
                if prev.len() == 0 {
                    assert(join_comma(cur) == cur[0]);
                }
            }
            count = count + 1;
        }
        i = i + 1;
    }
}

/// The context of a refinement pass; see [`refinement_context_text`].
pub fn build_refinement_context(base_context: Option<&str>, previous: &[Extraction]) -> (r: String)
    ensures
        r@ == refinement_context_text(match base_context {
            Some(b) => b@,
            None => seq![],
        }, previous@),
{
    let mut context = String::new();
    match base_context {
        Some(b) => push_str(&mut context, b),
        None => {},
    }
    if previous.len() == 0 {
        return context;
    }
    push_str(&mut context, "\n\nPrevious extractions found:");
    let counts = crate::visualization::count_extraction_classes(previous);
    let ghost cs = classes_in_order(previous@);
    let ghost head = context@;
    let mut k: usize = 0;
    while k < counts.len()
        invariant
            k <= counts@.len(),
            cs == classes_in_order(previous@),
            counts@.len() == cs.len(),
            forall|q: int| 0 <= q < counts@.len() ==> (#[trigger] counts@[q]).0@ == cs[q],
            context@ == head + class_lines(previous@, cs, k as int),
        decreases counts@.len() - k,
    {
        push_str(&mut context, "\n- ");
        push_str(&mut context, counts[k].0.as_str());
        push_str(&mut context, ": ");
        push_class_texts(&mut context, previous, counts[k].0.as_str());
        k = k + 1;
    }
    push_str(&mut context, "\n\nPlease look for additional entities that may have been missed, including related entities or different forms of the same information.");
    context
}

/// The extractions of the first `n` examples, in order.
pub open spec fn example_extractions(examples: Seq<ExampleData>, n: int) -> Seq<Extraction>
    decreases n,
{
    if n <= 0 || n > examples.len() {
        seq![]
    } else {
        example_extractions(examples, n - 1) + examples[n - 1].extractions@
    }
}

/// The fields an answer is checked against: the classes of the examples'
/// extractions, each once, in the order they first occur.
pub fn expected_fields(examples: &[ExampleData]) -> (r: Vec<String>)
    ensures
        r@.map_values(|s: String| s@) == classes_in_order(example_extractions(examples@, examples@.len() as int)),
{
    let mut fields: Vec<String> = Vec::new();
    let ghost mut seen: Seq<Extraction> = seq![];
    let mut i: usize = 0;
    proof {
        assert(fields@.map_values(|s: String| s@) =~= classes_in_order(seen));
    }
    while i < examples.len()
        invariant
            i <= examples@.len(),
            seen == example_extractions(examples@, i as int),
            fields@.map_values(|s: String| s@) == classes_in_order(seen),
        decreases examples@.len() - i,
    {
        let es = &examples[i].extractions;
        let ghost base = seen;
        let mut j: usize = 0;
        while j < es.len()
            invariant
                j <= es@.len(),
                seen == base + es@.subrange(0, j as int),
                fields@.map_values(|s: String| s@) == classes_in_order(seen),
            decreases es@.len() - j,
        {
            let class = es[j].extraction_class.as_str();
            let mut present = false;
            let mut q: usize = 0;
            while q < fields.len()
                invariant
                    q <= fields@.len(),
                    present == exists|w: int| 0 <= w < q && fields@[w]@ == class@,
                decreases fields@.len() - q,
            {
                if strings_equal(fields[q].as_str(), class) {
                    present = true;
                }
                q = q + 1;
            }
            let ghost before = fields@.map_values(|s: String| s@);
            let ghost next = seen.push(es@[j as int]);
            proof {
                assert(next.drop_last() =~= seen);
                assert(next.last() == es@[j as int]);
                assert(before.contains(class@) == present) by {
                    if present {
                        let w = choose|w: int| 0 <= w < fields@.len() && fields@[w]@ == class@;
                        assert(before[w] == class@);
                    }
                    if before.contains(class@) {
                        let w = choose|w: int| 0 <= w < before.len() && before[w] == class@;
                        assert(fields@[w]@ == class@);
                    }
                }
            }
            if !present {
                fields.push(class.to_string());
                proof {
                    assert(fields@.map_values(|s: String| s@) =~= before.push(class@));
                }
            }
            proof {
                seen = next;
                assert(base + es@.subrange(0, j + 1) =~= next);
            }
            j = j + 1;
        }
        proof {
            assert(es@.subrange(0, es@.len() as int) =~= es@);
        }
        i = i + 1;
    }
    fields
}

} // verus!
