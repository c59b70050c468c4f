//! The protocol with the dreadnaut worker: jobs are sent in batches, each
//! script framed so that the worker's output shows where the job's answer
//! starts and ends; answers come back in the order the jobs were sent.

use vstd::prelude::*;
use vstd::seq_lib::lemma_flatten_concat;
use std::collections::VecDeque;
use vstd::string::StringExecFns;
use crate::dreadnaut::{last_hash_line, missing_hash_message, orbit_hash, orbit_script, DreadnautJob};
use crate::text::{chars_of, lemma_split_at_break, matches_at, push_chars, seqs_of, split, split_vec, sub_vec};

verus! {

/// A job's script framed for the worker: dreadnaut echoes `START` before the
/// job's output and `END` after it.
pub open spec fn framed(script: Seq<char>) -> Seq<char> {
    "\"START\\n\"\n"@ + script + "\"END\\n\"\n"@
}

/// The script a job contributes to a batch: an orbit job's script; nothing
/// for a job that is an error.
pub open spec fn job_script(j: DreadnautJob) -> Seq<char> {
    match j {
        DreadnautJob::Orbit(c) => orbit_script(c),
        DreadnautJob::Error(_) => Seq::empty(),
    }
}

/// The whole batch: every job's script, framed, in order.
pub open spec fn batch_text(jobs: Seq<(usize, DreadnautJob)>) -> Seq<char>
    decreases jobs.len(),
{
    if jobs.len() == 0 {
        Seq::empty()
    } else {
        batch_text(jobs.drop_last()) + framed(job_script(jobs.last().1))
    }
}

/// What the worker is sent for job `j`: an orbit job's dreadnaut script;
/// nothing for a job that is an error.
pub open spec fn script_sent_for(j: DreadnautJob) -> Seq<char> {
    match j {
        DreadnautJob::Orbit(c) => orbit_script(c),
        DreadnautJob::Error(_) => Seq::empty(),
    }
}

/// The frames of a batch, one per job, in order.
pub open spec fn frames_of(jobs: Seq<(usize, DreadnautJob)>) -> Seq<Seq<char>> {
    Seq::new(jobs.len(), |i: int| framed(script_sent_for(jobs[i].1)))
}

proof fn lemma_batch_flat(jobs: Seq<(usize, DreadnautJob)>)
    ensures
        batch_text(jobs) == frames_of(jobs).flatten(),
    decreases jobs.len(),
{
    if jobs.len() == 0 {
        assert(frames_of(jobs) == Seq::<Seq<char>>::empty());
    } else {
        let d = jobs.drop_last();
        lemma_batch_flat(d);
        assert(frames_of(jobs) == frames_of(d).push(framed(script_sent_for(jobs.last().1))));
        frames_of(d).lemma_flatten_push(framed(script_sent_for(jobs.last().1)));
        assert(job_script(jobs.last().1) == script_sent_for(jobs.last().1));
    }
}

/// A batch is every job's frame, one after another: the frame of the job at
/// each position, whatever the position, holds that job's own script (the
/// orbit script of its canonizer, or nothing for an error job).
pub proof fn law_batch_frames_every_job(jobs: Seq<(usize, DreadnautJob)>)
    ensures
        batch_text(jobs) == frames_of(jobs).flatten(),
        forall|i: int|
            0 <= i < jobs.len() ==> batch_text(jobs) == batch_text(jobs.take(i)) + framed(
                script_sent_for(#[trigger] jobs[i].1),
            ) + batch_text(jobs.skip(i + 1)),
{
    lemma_batch_flat(jobs);
    assert forall|i: int|
        0 <= i < jobs.len() implies batch_text(jobs) == batch_text(jobs.take(i)) + framed(
            script_sent_for(#[trigger] jobs[i].1),
        ) + batch_text(jobs.skip(i + 1)) by {
        let x = frames_of(jobs.take(i));
        let y = frames_of(jobs.skip(i + 1));
        let f = framed(script_sent_for(jobs[i].1));
        lemma_batch_flat(jobs.take(i));
        lemma_batch_flat(jobs.skip(i + 1));
        assert(frames_of(jobs) == x.push(f) + y);
        lemma_flatten_concat(x.push(f), y);
        x.lemma_flatten_push(f);
    }
}

/// Job `j1` is what job `j0` becomes once it is handed the worker's answer
/// `res`: an orbit job takes the hash in the answer, or becomes the error
/// that no hash was found; a job that is an error stays as it is.
pub open spec fn answered(j0: DreadnautJob, res: Seq<char>, j1: DreadnautJob) -> bool {
    match (j0, j1) {
        (DreadnautJob::Orbit(c0), DreadnautJob::Orbit(c1)) => {
            &&& c1.generator_view() == c0.generator_view()
            &&& c1.vertex_count() == c0.vertex_count()
            &&& last_hash_line(split(res, seq!['\n'])) matches Some(l)
            &&& c1.hash_view() == Some(orbit_hash(l))
        },
        (DreadnautJob::Orbit(_), DreadnautJob::Error(e)) => {
            &&& last_hash_line(split(res, seq!['\n'])) is None
            &&& e@ == missing_hash_message()
        },
        (DreadnautJob::Error(e0), DreadnautJob::Error(e1)) => e1 == e0,
        _ => false,
    }
}

/// How many queued jobs `responses` answers reach: one per answer, as long
/// as jobs are waiting.
pub open spec fn answered_count(responses: int, queued: int) -> int {
    if responses < queued {
        responses
    } else {
        queued
    }
}

/// The jobs sent to the worker and not answered yet, oldest first, and the
/// jobs answered so far, by request id.
pub struct DreadnautQueue {
    pub queue: VecDeque<(usize, DreadnautJob)>,
    pub completed_jobs: Vec<(usize, DreadnautJob)>,
}

impl DreadnautQueue {
    /// No job sent, none answered.
    pub fn new() -> (q: Self)
        ensures
            q.queue@ == Seq::<(usize, DreadnautJob)>::empty(),
            q.completed_jobs@ == Seq::<(usize, DreadnautJob)>::empty(),
    {
        DreadnautQueue { queue: VecDeque::new(), completed_jobs: Vec::new() }
    }

    /// Queues a batch of jobs and gives the text to send to the worker for
    /// them: each job's script, framed; a job that is an error stays queued
    /// and sends an empty frame, so that answers keep the order of jobs.
    pub fn enqueue_batch(&mut self, jobs: Vec<(usize, DreadnautJob)>) -> (full_script: String)
        ensures
            final(self).queue@ == old(self).queue@ + jobs@,
            final(self).completed_jobs@ == old(self).completed_jobs@,
            full_script@ == batch_text(jobs@),
    {
        let ghost all = jobs@;
        let total = jobs.len();
        let mut rest = jobs;
        let mut full_script = String::new();
        let ghost q0 = self.queue@;
        let ghost c0 = self.completed_jobs@;
        let mut k: usize = 0;
        while rest.len() > 0
            invariant
                k + rest.len() == all.len(),
                all.len() == total,
                rest@ == all.skip(k as int),
                self.queue@ == q0 + all.take(k as int),
                self.completed_jobs@ == c0,
                full_script@ == batch_text(all.take(k as int)),
            decreases rest.len(),
        {
            let (request_id, mut job) = rest.remove(0);
            proof {
                assert(all[k as int] == (request_id, job));
                assert(all.take(k + 1) == all.take(k as int).push(all[k as int]));
                assert(all.take(k + 1).drop_last() == all.take(k as int));
                assert(rest@ == all.skip(k + 1));
            }
            let ghost j0 = job;
            let (job, script) = match job.generate_script() {
                Ok(script) => (job, script),
                Err(e) => (DreadnautJob::Error(e), String::new()),
            };
            proof {
                assert(job == j0);
                assert(script@ == job_script(j0));
            }
            full_script.append("\"START\\n\"\n");
            full_script.append(script.as_str());
            full_script.append("\"END\\n\"\n");
            self.queue.push_back((request_id, job));
            k += 1;
        }
        proof {
            assert(all.take(all.len() as int) == all);
        }
        full_script
    }

    /// Hands the worker's answers, in order, to the oldest queued jobs and
    /// moves those jobs to the answered ones; answers beyond the queued jobs
    /// are dropped. Tells whether answers came and no job is left waiting.
    pub fn process_responses(&mut self, responses: Vec<String>) -> (done: bool)
        ensures
            ({
                let k = answered_count(responses.len() as int, old(self).queue@.len() as int);
                let n0 = old(self).completed_jobs@.len() as int;
                &&& final(self).queue@ == old(self).queue@.skip(k)
                &&& final(self).completed_jobs@.len() == n0 + k
                &&& final(self).completed_jobs@.take(n0) == old(self).completed_jobs@
                &&& forall|i: int|
                    0 <= i < k ==> (#[trigger] final(self).completed_jobs@[n0 + i]).0 == old(self).queue@[i].0
                        && answered(old(self).queue@[i].1, responses@[i]@, final(self).completed_jobs@[n0 + i].1)
                &&& done == (responses.len() > 0 && final(self).queue@.len() == 0)
            }),
    {
        let ghost q0 = self.queue@;
        let ghost c0 = self.completed_jobs@;
        let ghost n0 = c0.len() as int;
        let mut i: usize = 0;
        while i < responses.len()
            invariant
                i <= responses.len(),
                n0 == c0.len(),
                ({
                    let k = answered_count(i as int, q0.len() as int);
                    &&& self.queue@ == q0.skip(k)
                    &&& self.completed_jobs@.len() == n0 + k
                    &&& self.completed_jobs@.take(n0) == c0
                    &&& forall|j: int|
                        0 <= j < k ==> (#[trigger] self.completed_jobs@[n0 + j]).0 == q0[j].0 && answered(
                            q0[j].1,
                            responses@[j]@,
                            self.completed_jobs@[n0 + j].1,
                        )
                }),
            decreases responses.len() - i,
        {
            let ghost cj = self.completed_jobs@;
            if let Some((request_id, mut job)) = self.queue.pop_front() {
                let ghost j0 = job;
                proof {
                    assert(q0.skip(i as int).subrange(1, q0.skip(i as int).len() as int) == q0.skip(i + 1));
                }
                let r = job.process_script_result(responses[i].as_str());
                let job = match r {
                    Ok(_) => job,
                    Err(e) => DreadnautJob::Error(e),
                };
                proof {
                    assert(answered(j0, responses@[i as int]@, job));
                }
                self.completed_jobs.push((request_id, job));
                proof {
                    assert(self.completed_jobs@.take(n0) =~= cj.take(n0));
                    assert forall|j: int| 0 <= j < i + 1 implies (#[trigger] self.completed_jobs@[n0 + j]).0 == q0[j].0 && answered(
                        q0[j].1,
                        responses@[j]@,
                        self.completed_jobs@[n0 + j].1,
                    ) by {
                        if j < i {
                            assert(self.completed_jobs@[n0 + j] == cj[n0 + j]);
                        }
                    }
                }
            }
            i += 1;
        }
        responses.len() > 0 && self.queue.len() == 0
    }
}

/// `l` ends with `w`.
pub open spec fn ends_with(l: Seq<char>, w: Seq<char>) -> bool {
    l.len() >= w.len() && l.subrange(l.len() - w.len(), l.len() as int) == w
}

/// `l` without the prompts `> ` that dreadnaut puts in front of it.
pub open spec fn strip_prompts(l: Seq<char>) -> Seq<char>
    decreases l.len(),
{
    if l.len() >= 2 && l[0] == '>' && l[1] == ' ' {
        strip_prompts(l.skip(2))
    } else {
        l
    }
}

/// One line of the worker's output read: the answer being collected, if
/// any, after the line, and the answer that the line completes, if any. A
/// line ending in `START` opens a new answer; one ending in `END` closes the
/// open answer; any other line, stripped of its prompts, is added to the open
/// answer. Lines outside an answer are ignored.
pub open spec fn read_line(cur: Option<Seq<char>>, line: Seq<char>) -> (Option<Seq<char>>, Option<Seq<char>>) {
    if ends_with(line, "START"@) {
        (Some(Seq::empty()), None)
    } else {
        match cur {
            None => (None, None),
            Some(c) => if ends_with(line, "END"@) {
                (None, Some(c))
            } else {
                (Some(c + strip_prompts(line) + seq!['\n']), None)
            },
        }
    }
}

/// The lines read in order: the answer left open, and the answers completed.
pub open spec fn read_lines(cur: Option<Seq<char>>, lines: Seq<Seq<char>>) -> (Option<Seq<char>>, Seq<Seq<char>>)
    decreases lines.len(),
{
    if lines.len() == 0 {
        (cur, Seq::empty())
    } else {
        let (c1, done) = read_lines(cur, lines.drop_last());
        let (c2, f) = read_line(c1, lines.last());
        (c2, match f {
            Some(a) => done.push(a),
            None => done,
        })
    }
}

/// Reading lines in two runs, the second starting from where the first left
/// off, is reading them all at once.
proof fn lemma_read_lines_append(cur: Option<Seq<char>>, l1: Seq<Seq<char>>, l2: Seq<Seq<char>>)
    ensures
        read_lines(cur, l1 + l2) == ({
            let (c1, d1) = read_lines(cur, l1);
            let (c2, d2) = read_lines(c1, l2);
            (c2, d1 + d2)
        }),
    decreases l2.len(),
{
    if l2.len() == 0 {
        assert(l1 + l2 == l1);
        assert(read_lines(cur, l1).1 + Seq::<Seq<char>>::empty() == read_lines(cur, l1).1);
    } else {
        lemma_read_lines_append(cur, l1, l2.drop_last());
        assert((l1 + l2).drop_last() == l1 + l2.drop_last());
        assert((l1 + l2).last() == l2.last());
        let (c1, d1) = read_lines(cur, l1);
        let (c2, d2) = read_lines(c1, l2.drop_last());
        let (_, f) = read_line(c2, l2.last());
        if let Some(a) = f {
            assert((d1 + d2).push(a) == d1 + d2.push(a));
        }
    }
}

/// Output that reaches the collector in two pieces, cut at a line break, is
/// read as if it had come in one piece: the answers of the first piece, then
/// those of the second, with an answer left open by the first continued by
/// the second.
pub proof fn law_output_read_in_pieces(cur: Option<Seq<char>>, a: Seq<char>, b: Seq<char>)
    ensures
        read_lines(cur, split(a + seq!['\n'] + b, seq!['\n'])) == ({
            let (c1, d1) = read_lines(cur, split(a, seq!['\n']));
            let (c2, d2) = read_lines(c1, split(b, seq!['\n']));
            (c2, d1 + d2)
        }),
{
    lemma_split_at_break(a, b, '\n');
    lemma_read_lines_append(cur, split(a, seq!['\n']), split(b, seq!['\n']));
}

/// `l` ends with the word `w`.
pub open spec fn marked(l: Seq<char>, w: Seq<char>) -> bool {
    l.len() >= w.len() && l.skip(l.len() - w.len()) == w
}

/// `p` is made of `k` prompts `> `.
pub open spec fn prompts(p: Seq<char>, k: nat) -> bool {
    p.len() == 2 * k && forall|j: int| 0 <= j < k ==> #[trigger] p[2 * j] == '>' && p[2 * j + 1] == ' '
}

/// Stripping prompts removes every leading `> ` and nothing else: the line
/// is some prompts followed by what is left, which does not itself start
/// with a prompt.
pub proof fn law_strip_prompts(l: Seq<char>)
    ensures
        exists|k: nat| #[trigger] prompts(l.take(l.len() - strip_prompts(l).len()), k),
        l.skip(l.len() - strip_prompts(l).len()) == strip_prompts(l),
        strip_prompts(l).len() <= l.len(),
        !(strip_prompts(l).len() >= 2 && strip_prompts(l)[0] == '>' && strip_prompts(l)[1] == ' '),
    decreases l.len(),
{
    if l.len() >= 2 && l[0] == '>' && l[1] == ' ' {
        let r = l.skip(2);
        law_strip_prompts(r);
        let s = strip_prompts(r);
        let k = choose|k: nat| #[trigger] prompts(r.take(r.len() - s.len()), k);
        assert(strip_prompts(l) == s);
        let p = l.take(l.len() - s.len());
        assert(prompts(p, k + 1)) by {
            assert forall|j: int| 0 <= j < k + 1 implies #[trigger] p[2 * j] == '>' && p[2 * j + 1] == ' ' by {
                if j > 0 {
                    assert(p[2 * j] == r.take(r.len() - s.len())[2 * (j - 1)]);
                    assert(p[2 * j + 1] == r.take(r.len() - s.len())[2 * (j - 1) + 1]);
                }
            }
        }
        assert(l.skip(l.len() - s.len()) == r.skip(r.len() - s.len()));
    } else {
        assert(strip_prompts(l) == l);
        assert(l.take(l.len() - l.len()) == l.take(0));
        assert(prompts(l.take(0), 0));
        assert(l.skip(0) == l);
    }
}

/// The text an answer collects for the lines `body`: each line stripped of
/// its prompts and ended by a line break.
pub open spec fn answer_text(body: Seq<Seq<char>>) -> Seq<char> {
    Seq::new(body.len(), |i: int| strip_prompts(body[i]) + seq!['\n']).flatten()
}

proof fn lemma_read_open_answer(cur: Option<Seq<char>>, open: Seq<char>, body: Seq<Seq<char>>, m: nat)
    requires
        marked(open, "START"@),
        m <= body.len(),
        forall|i: int| 0 <= i < body.len() ==> !marked(#[trigger] body[i], "START"@) && !marked(body[i], "END"@),
    ensures
        read_lines(cur, seq![open] + body.take(m as int)) == (Some(answer_text(body.take(m as int))), Seq::<Seq<char>>::empty()),
    decreases m,
{
    reveal_strlit("START");
    reveal_strlit("END");
    assert(ends_with(open, "START"@)) by {
        assert(open.subrange(open.len() - 5, open.len() as int) == open.skip(open.len() - 5));
    }
    if m == 0 {
        let ls = seq![open] + body.take(0);
        assert(ls.drop_last() == Seq::<Seq<char>>::empty());
        assert(ls.last() == open);
        assert(answer_text(body.take(0)) == Seq::<char>::empty()) by {
            assert(Seq::new(0, |i: int| strip_prompts(body.take(0)[i]) + seq!['\n']) == Seq::<Seq<char>>::empty());
        }
        assert(read_lines(cur, ls.drop_last()) == (cur, Seq::<Seq<char>>::empty()));
        assert(read_line(cur, open) == (Some(Seq::<char>::empty()), None::<Seq<char>>));
        assert(read_lines(cur, ls) == (Some(Seq::<char>::empty()), Seq::<Seq<char>>::empty()));
    } else {
        lemma_read_open_answer(cur, open, body, (m - 1) as nat);
        let ls = seq![open] + body.take(m as int);
        let line = body[m - 1];
        assert(ls.drop_last() == seq![open] + body.take(m - 1));
        assert(ls.last() == line);
        assert(!ends_with(line, "START"@)) by {
            if ends_with(line, "START"@) {
                assert(line.subrange(line.len() - 5, line.len() as int) == line.skip(line.len() - 5));
            }
        }
        assert(!ends_with(line, "END"@)) by {
            if ends_with(line, "END"@) {
                assert(line.subrange(line.len() - 3, line.len() as int) == line.skip(line.len() - 3));
            }
        }
        let fa = Seq::new((m - 1) as nat, |i: int| strip_prompts(body.take(m - 1)[i]) + seq!['\n']);
        let fb = Seq::new(m, |i: int| strip_prompts(body.take(m as int)[i]) + seq!['\n']);
        assert(fb == fa.push(strip_prompts(line) + seq!['\n']));
        fa.lemma_flatten_push(strip_prompts(line) + seq!['\n']);
        assert(answer_text(body.take(m - 1)) + strip_prompts(line) + seq!['\n'] == answer_text(body.take(m as int)));
        let prev = answer_text(body.take(m - 1));
        assert(read_lines(cur, ls.drop_last()) == (Some(prev), Seq::<Seq<char>>::empty()));
        assert(read_line(Some(prev), line) == (Some(prev + strip_prompts(line) + seq!['\n']), None::<Seq<char>>));
    }
}

/// An answer framed by the worker comes back whole: a line ending in
/// `START`, lines ending in neither `START` nor `END`, then a line ending in
/// `END` give exactly one answer, made of the lines between, each stripped
/// of its prompts and ended by a line break, and leave no answer open,
/// whatever was open before.
pub proof fn law_framed_answer(cur: Option<Seq<char>>, open: Seq<char>, body: Seq<Seq<char>>, close: Seq<char>)
    requires
        marked(open, "START"@),
        marked(close, "END"@),
        !marked(close, "START"@),
        forall|i: int| 0 <= i < body.len() ==> !marked(#[trigger] body[i], "START"@) && !marked(body[i], "END"@),
    ensures
        read_lines(cur, seq![open] + body + seq![close]) == (None::<Seq<char>>, seq![answer_text(body)]),
{
    reveal_strlit("START");
    reveal_strlit("END");
    lemma_read_open_answer(cur, open, body, body.len());
    let ls = seq![open] + body + seq![close];
    assert(body.take(body.len() as int) == body);
    assert(ls.drop_last() == seq![open] + body);
    assert(ls.last() == close);
    assert(!ends_with(close, "START"@)) by {
        if ends_with(close, "START"@) {
            assert(close.subrange(close.len() - 5, close.len() as int) == close.skip(close.len() - 5));
        }
    }
    assert(ends_with(close, "END"@)) by {
        reveal_strlit("END");
        assert(close.subrange(close.len() - 3, close.len() as int) == close.skip(close.len() - 3));
    }
    assert(Seq::<Seq<char>>::empty().push(answer_text(body)) == seq![answer_text(body)]);
}

/// Lines read while no answer is open, none of them ending in `START`, give
/// no answer.
pub proof fn law_lines_outside_answers_ignored(lines: Seq<Seq<char>>)
    requires
        forall|i: int| 0 <= i < lines.len() ==> !marked(#[trigger] lines[i], "START"@),
    ensures
        read_lines(None, lines) == (None::<Seq<char>>, Seq::<Seq<char>>::empty()),
    decreases lines.len(),
{
    reveal_strlit("START");
    if lines.len() > 0 {
        let d = lines.drop_last();
        assert forall|i: int| 0 <= i < d.len() implies !marked(#[trigger] d[i], "START"@) by {
            assert(d[i] == lines[i]);
        }
        law_lines_outside_answers_ignored(d);
        let line = lines.last();
        assert(!marked(lines[lines.len() - 1], "START"@));
        assert(!ends_with(line, "START"@)) by {
            if ends_with(line, "START"@) {
                assert(line.subrange(line.len() - 5, line.len() as int) == line.skip(line.len() - 5));
            }
        }
    }
}

/// The answers as sequences.
pub open spec fn answers_view(v: Seq<String>) -> Seq<Seq<char>> {
    v.map_values(|s: String| s@)
}

fn ends_with_exec(l: &Vec<char>, w: &Vec<char>) -> (b: bool)
    ensures
        b == ends_with(l@, w@),
{
    l.len() >= w.len() && matches_at(l, w, l.len() - w.len())
}

/// Where the prompts in front of `l` end.
fn prompts_end(l: &Vec<char>) -> (p: usize)
    ensures
        p <= l.len(),
        l@.skip(p as int) == strip_prompts(l@),
{
    let mut p: usize = 0;
    proof {
        assert(l@.skip(0) == l@);
    }
    while l.len() - p >= 2 && l[p] == '>' && l[p + 1] == ' '
        invariant
            p <= l.len(),
            strip_prompts(l@.skip(p as int)) == strip_prompts(l@),
        decreases l.len() - p,
    {
        proof {
            assert(l@.skip(p as int).skip(2) == l@.skip(p + 2));
        }
        p += 2;
    }
    p
}

/// Collects the answers in the worker's output, which may arrive in pieces
/// of whole lines.
pub struct ResponseCollector {
    current: Option<String>,
}

impl ResponseCollector {
    /// The answer being collected, if any.
    pub closed spec fn current_view(&self) -> Option<Seq<char>> {
        match self.current {
            Some(c) => Some(c@),
            None => None,
        }
    }

    /// No answer open.
    pub fn new() -> (c: Self)
        ensures
            c.current_view() is None,
    {
        ResponseCollector { current: None }
    }

    /// Reads a piece of the worker's output, line by line, and gives the
    /// answers it completes.
    pub fn feed(&mut self, data: &str) -> (answers: Vec<String>)
        ensures
            (final(self).current_view(), answers_view(answers@)) == read_lines(
                old(self).current_view(),
                split(data@, seq!['\n']),
            ),
    {
        let chars = chars_of(data);
        let mut nl: Vec<char> = Vec::new();
        nl.push('\n');
        proof {
            assert(nl@ == seq!['\n']);
        }
        let lines = split_vec(&chars, &nl);
        let ghost ls = split(data@, seq!['\n']);
        let ghost c0 = self.current_view();
        let start_word = chars_of("START");
        let end_word = chars_of("END");
        let mut answers: Vec<String> = Vec::new();
        let mut i: usize = 0;
        proof {
            assert(ls.take(0) == Seq::<Seq<char>>::empty());
            assert(answers_view(answers@) == Seq::<Seq<char>>::empty());
        }
        while i < lines.len()
            invariant
                i <= lines.len(),
                seqs_of(lines@) == ls,
                start_word@ == "START"@,
                end_word@ == "END"@,
                (self.current_view(), answers_view(answers@)) == read_lines(c0, ls.take(i as int)),
            decreases lines.len() - i,
        {
            let line = &lines[i];
            let ghost before = answers@;
            proof {
                assert(ls.take(i + 1).drop_last() == ls.take(i as int));
                assert(ls.take(i + 1).last() == line@);
            }
            if ends_with_exec(line, &start_word) {
                self.current = Some(String::new());
            } else {
                match self.current.take() {
                    None => {},
                    Some(mut cur) => {
                        if ends_with_exec(line, &end_word) {
                            answers.push(cur);
                            proof {
                                assert(answers_view(answers@) == answers_view(before).push(answers@.last()@));
                            }
                        } else {
                            let p = prompts_end(line);
                            let rest = sub_vec(line, p, line.len());
                            proof {
                                assert(rest@ == line@.skip(p as int));
                            }
                            push_chars(&mut cur, &rest);
                            cur.append("\n");
                            proof {
                                reveal_strlit("\n");
                            }
                            self.current = Some(cur);
                        }
                    },
                }
            }
            i += 1;
        }
        proof {
            assert(ls.take(lines.len() as int) == ls);
        }
        answers
    }
}

} // verus!
