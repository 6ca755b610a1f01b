//! Benchmark jobs, the record of their steps, and the log of drafts.

use vstd::prelude::*;

use crate::batch::admission::BatchRequest;
use crate::batch::prefix::ImageSpan;
use crate::batch::sources::{Domain, SpecSource};
use crate::single::{Single, ONE_BITS};
use crate::text;

verus! {

/// A job: a prompt, how it is decoded, and the source that drafts for it.
pub struct SpecBenchJob {
    pub prompt: Vec<u32>,
    pub max_new: usize,
    pub temperature: Single,
    pub top_p: Single,
    pub top_k: usize,
    pub seed: u64,
    pub source: SpecSource,
    pub domain: Domain,
}

/// The request of a job: without penalties, images or a schema.
pub fn bench_request(job: SpecBenchJob, client: u64) -> (r: BatchRequest)
    ensures
        r.prompt == job.prompt,
        r.max_new == job.max_new,
        r.temperature == job.temperature,
        r.top_p == job.top_p,
        r.top_k == job.top_k,
        r.rep_penalty == (Single { bits: ONE_BITS }),
        r.presence_penalty == (Single { bits: 0 }),
        r.frequency_penalty == (Single { bits: 0 }),
        r.min_new == 0,
        !r.ignore_eos,
        r.client == client,
        r.seed == Some(job.seed),
        r.ckpt_at is None,
        r.domain == job.domain,
        r.image_embeds is None,
        r.image_spans@.len() == 0,
        r.schema is None,
{
    let spans: Vec<ImageSpan> = Vec::new();
    BatchRequest {
        prompt: job.prompt,
        max_new: job.max_new,
        temperature: job.temperature,
        top_p: job.top_p,
        top_k: job.top_k,
        rep_penalty: Single { bits: ONE_BITS },
        presence_penalty: Single { bits: 0 },
        frequency_penalty: Single { bits: 0 },
        min_new: 0,
        ignore_eos: false,
        client,
        seed: Some(job.seed),
        ckpt_at: None,
        domain: job.domain,
        image_embeds: None,
        image_spans: spans,
        schema: None,
    }
}

/// One speculative step, with its times in milliseconds.
#[derive(Clone, Copy, PartialEq, Eq, Structural, Debug)]
pub struct SpecStepRec {
    pub greedy: bool,
    pub pos: u32,
    pub drafts: u32,
    pub nacc: u32,
    pub emitted: u32,
    pub round_ms: Single,
    pub verify_ms: Single,
    pub step_ms: Single,
}

/// The record of the steps of a job.
pub struct StepLog {
    pub on: bool,
    pub steps: Vec<SpecStepRec>,
}

impl StepLog {
    /// Records a step, where recording is on.
    pub fn rec_step(&mut self, r: SpecStepRec)
        ensures
            final(self).on == old(self).on,
            final(self).steps@ == if old(self).on {
                old(self).steps@.push(r)
            } else {
                old(self).steps@
            },
    {
        if self.on {
            self.steps.push(r);
        }
    }

    /// Starts the record of a job.
    pub fn start(&mut self)
        ensures
            final(self).on,
            final(self).steps@.len() == 0,
    {
        self.steps = Vec::new();
        self.on = true;
    }

    /// Ends the record and hands it out.
    pub fn finish(&mut self) -> (v: Vec<SpecStepRec>)
        ensures
            v@ == old(self).steps@,
            !final(self).on,
            final(self).steps@.len() == 0,
    {
        self.on = false;
        let mut v: Vec<SpecStepRec> = Vec::new();
        v.append(&mut self.steps);
        assert(v@ =~= old(self).steps@);
        v
    }
}

/// Where the model and its state are, for a dump when ranks disagree.
pub struct LiveState {
    pub registered: Option<(usize, usize)>,
}

/// Registers where the model and its state are.
pub fn r9_register_state(live: &mut LiveState, gpu: usize, state: usize)
    ensures
        final(live).registered == Some((gpu, state)),
{
    live.registered = Some((gpu, state));
}

/// The numbers among the first `n`, with commas between them.
pub open spec fn comma_list(xs: Seq<u32>, n: int) -> Seq<char>
    decreases n,
{
    if n <= 0 {
        Seq::empty()
    } else if n == 1 {
        text::decimal(xs[0] as nat)
    } else {
        comma_list(xs, n - 1) + ","@ + text::decimal(xs[n - 1] as nat)
    }
}

/// A JSON list of numbers.
pub open spec fn list_text(xs: Seq<u32>) -> Seq<char> {
    "["@ + comma_list(xs, xs.len() as int) + "]"@
}

fn append_list(s: &mut String, xs: &Vec<u32>)
    ensures
        final(s)@ == old(s)@ + list_text(xs@),
{
    let ghost before = s@;
    let mut body = String::from_str("");
    proof {
        reveal_strlit("");
    }
    assert(body@ =~= comma_list(xs@, 0));
    let mut i: usize = 0;
    while i < xs.len()
        invariant
            i <= xs@.len(),
            body@ == comma_list(xs@, i as int),
        decreases xs@.len() - i,
    {
        if i > 0 {
            body.append(",");
        }
        let ghost sofar = body@;
        body.append(text::to_decimal(xs[i] as u64).as_str());
        assert(body@ =~= comma_list(xs@, i + 1));
        i += 1;
    }
    s.append("[");
    s.append(body.as_str());
    s.append("]");
    assert(s@ =~= before + list_text(xs@));
}

/// One line of the log of drafts.
pub open spec fn draft_line(
    step: u64,
    lane: usize,
    pos: usize,
    committed: u32,
    drafts: Seq<u32>,
    preds: Seq<u32>,
    nacc: usize,
) -> Seq<char> {
    "{\"step\":"@ + text::decimal(step as nat) + ",\"lane\":"@ + text::decimal(lane as nat)
        + ",\"pos\":"@ + text::decimal(pos as nat) + ",\"committed\":"@ + text::decimal(
        committed as nat,
    ) + ",\"drafts\":"@ + list_text(drafts) + ",\"preds\":"@ + list_text(preds) + ",\"nacc\":"@
        + text::decimal(nacc as nat) + "}"@
}

/// Writes a step of the draft head as one line of JSON.
pub fn log_draft_step(
    step: u64,
    lane: usize,
    pos: usize,
    committed: u32,
    drafts: &Vec<u32>,
    preds: &Vec<u32>,
    nacc: usize,
) -> (r: String)
    ensures
        r@ == draft_line(step, lane, pos, committed, drafts@, preds@, nacc),
{
    let mut r = String::from_str("{\"step\":");
    r.append(text::to_decimal(step).as_str());
    r.append(",\"lane\":");
    r.append(text::to_decimal(lane as u64).as_str());
    r.append(",\"pos\":");
    r.append(text::to_decimal(pos as u64).as_str());
    r.append(",\"committed\":");
    r.append(text::to_decimal(committed as u64).as_str());
    r.append(",\"drafts\":");
    append_list(&mut r, drafts);
    r.append(",\"preds\":");
    append_list(&mut r, preds);
    r.append(",\"nacc\":");
    r.append(text::to_decimal(nacc as u64).as_str());
    r.append("}");
    r
}


/// A list is written as its first number and then, for each further one, a comma and the number: the
/// text of a longer list starts with that of a shorter one.
pub proof fn law_lists_are_written_number_by_number(xs: Seq<u32>, n: int)
    requires
        0 < n <= xs.len(),
    ensures
        comma_list(xs, 1) == text::decimal(xs[0] as nat),
        n > 1 ==> comma_list(xs, n) == comma_list(xs, n - 1).push(',') + text::decimal(
            xs[n - 1] as nat,
        ),
        list_text(xs) == seq!['['] + comma_list(xs, xs.len() as int) + seq![']'],
        list_text(Seq::empty()) == seq!['[', ']'],
{
    reveal_strlit(",");
    reveal_strlit("[");
    reveal_strlit("]");
    assert("["@ =~= seq!['[']);
    assert("]"@ =~= seq![']']);
    if n > 1 {
        assert(comma_list(xs, n) =~= comma_list(xs, n - 1).push(',') + text::decimal(
            xs[n - 1] as nat,
        ));
    }
    assert(list_text(Seq::empty()) =~= seq!['[', ']']);
}

} // verus!
