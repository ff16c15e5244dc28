use vstd::prelude::*;

use crate::bulk::{texts, BulkTranslated};
use crate::chunk::{
    chunk_at, chunk_count, chunk_lines, chunk_lines_of, is_chunking, lemma_chunk_sizes,
    lemma_chunks_cover, Chunk,
};
use crate::MAX_RETRY_DEPTH;

verus! {

/// A stretch of the input whose place in the output is fixed: either translated already,
/// or still to be sent at the given retry depth.
pub enum Segment {
    Done { original: Vec<String>, translated: Vec<String> },
    Pending { lines: Vec<String>, depth: u32 },
}

impl Segment {
    /// The input lines that the segment stands for.
    pub open spec fn original(&self) -> Seq<String> {
        match self {
            Segment::Done { original, .. } => original@,
            Segment::Pending { lines, .. } => lines@,
        }
    }

    /// The translated lines of a finished segment; nothing for a pending one.
    pub open spec fn translated(&self) -> Seq<String> {
        match self {
            Segment::Done { translated, .. } => translated@,
            Segment::Pending { .. } => Seq::empty(),
        }
    }

    pub open spec fn well_formed(&self) -> bool {
        match self {
            Segment::Done { original, translated } => original@.len() == translated@.len(),
            Segment::Pending { lines, depth } => 0 < lines@.len() <= i32::MAX && *depth
                <= MAX_RETRY_DEPTH,
        }
    }
}

/// The input lines of a stack of segments, from the top (the last) down.
pub open spec fn stack_lines(stack: Seq<Segment>) -> Seq<String>
    decreases stack.len(),
{
    if stack.len() == 0 {
        Seq::empty()
    } else {
        stack.last().original() + stack_lines(stack.drop_last())
    }
}

/// The translated lines of a stack of finished segments, from the top down.
pub open spec fn stack_translations(stack: Seq<Segment>) -> Seq<String>
    decreases stack.len(),
{
    if stack.len() == 0 {
        Seq::empty()
    } else {
        stack.last().translated() + stack_translations(stack.drop_last())
    }
}

/// The position of the topmost pending segment of a stack, or -1 when there is none.
pub open spec fn top_pending(stack: Seq<Segment>) -> int
    decreases stack.len(),
{
    if stack.len() == 0 {
        -1
    } else if stack.last() is Pending {
        stack.len() - 1
    } else {
        top_pending(stack.drop_last())
    }
}

/// How many more rounds a line may still take at a retry depth, its own included.
pub open spec fn levels_left(depth: u32) -> nat {
    (MAX_RETRY_DEPTH + 1 - depth) as nat
}

/// An upper bound on the requests a segment may still cost, counted per line and level.
pub open spec fn segment_work(seg: Segment) -> nat {
    match seg {
        Segment::Pending { lines, depth } => lines@.len() * levels_left(depth),
        Segment::Done { .. } => 0,
    }
}

/// The work of a stack of segments.
pub open spec fn stack_work(stack: Seq<Segment>) -> nat
    decreases stack.len(),
{
    if stack.len() == 0 {
        0
    } else {
        segment_work(stack.last()) + stack_work(stack.drop_last())
    }
}

/// Lines per request at a retry depth: the configured size first, then one line each.
pub open spec fn size_at(depth: u32, chunk_size: usize) -> nat {
    if depth == 0 {
        chunk_size as nat
    } else {
        1
    }
}

/// The index among `results` of the one numbered `k + 1`.
pub open spec fn numbered<S>(results: Seq<BulkTranslated<S>>, k: int) -> int {
    choose|i: int| 0 <= i < results.len() && results[i].number == k + 1
}

/// The translated lines of the result numbered `k + 1`.
pub open spec fn translation_of<S>(results: Seq<BulkTranslated<S>>, k: int) -> Seq<String> {
    results[numbered(results, k)].translated_lines@
}

/// The usage statistics of the results, in number order.
pub open spec fn stats_in_order<S>(results: Seq<BulkTranslated<S>>) -> Seq<S> {
    Seq::new(results.len(), |k: int| results[numbered(results, k)].stats)
}

/// `results` answer a round whose chunks held `expected`: one result for each number,
/// each carrying its chunk's lines.
pub open spec fn round_valid<S>(expected: Seq<Seq<String>>, results: Seq<BulkTranslated<S>>) -> bool {
    &&& results.len() == expected.len()
    &&& forall|i: int|
        0 <= i < results.len() ==> 1 <= (#[trigger] results[i]).number <= expected.len() && texts(
            results[i].original_lines@,
        ) == texts(expected[results[i].number - 1])
    &&& forall|i: int, j: int|
        0 <= i < j < results.len() ==> (#[trigger] results[i]).number != (#[trigger] results[j]).number
    &&& forall|k: int| 0 <= k < expected.len() ==> #[trigger] answered(results, k)
}

/// Some result carries the number `k + 1`.
pub open spec fn answered<S>(results: Seq<BulkTranslated<S>>, k: int) -> bool {
    exists|i: int| 0 <= i < results.len() && (#[trigger] results[i]).number == k + 1
}

/// The chunk at position `k` came back with a line count other than its own.
pub open spec fn mismatched<S>(expected: Seq<Seq<String>>, results: Seq<BulkTranslated<S>>, k: int) -> bool {
    translation_of(results, k).len() != expected[k].len()
}

/// What takes a chunk's place after its round: its translation when the line count
/// matches, else its lines again, one retry level deeper.
pub open spec fn is_outcome(seg: Segment, lines: Seq<String>, translated: Seq<String>, depth: u32) -> bool {
    if translated.len() == lines.len() {
        match seg {
            Segment::Done { original, translated: t } => original@ == lines && t@ == translated,
            Segment::Pending { .. } => false,
        }
    } else {
        match seg {
            Segment::Pending { lines: l, depth: d } => l@ == lines && d == depth + 1,
            Segment::Done { .. } => false,
        }
    }
}

/// A round that sends `seg`'s lines at its depth, in chunks of the size for that depth.
pub open spec fn is_round_of(round: Round, seg: Segment, chunk_size: usize) -> bool {
    match seg {
        Segment::Pending { lines, depth } => {
            &&& round.depth == depth
            &&& is_chunking(round.chunks@, lines@, size_at(depth, chunk_size))
        },
        Segment::Done { .. } => false,
    }
}

proof fn lemma_stack_bottom(s: Seq<Segment>)
    requires
        s.len() > 0,
    ensures
        stack_lines(s) == stack_lines(s.subrange(1, s.len() as int)) + s[0].original(),
        stack_translations(s) == stack_translations(s.subrange(1, s.len() as int))
            + s[0].translated(),
    decreases s.len(),
{
    let rest = s.subrange(1, s.len() as int);
    if s.len() > 1 {
        let d = s.drop_last();
        lemma_stack_bottom(d);
        assert(d.subrange(1, d.len() as int) == rest.drop_last());
        assert(rest.last() == s.last());
        assert(d[0] == s[0]);
        assert(stack_lines(rest) == rest.last().original() + stack_lines(rest.drop_last()));
        assert(stack_lines(s) == s.last().original() + stack_lines(d));
        assert(stack_lines(s) == stack_lines(rest) + s[0].original());
        assert(stack_translations(rest) == rest.last().translated() + stack_translations(
            rest.drop_last(),
        ));
        assert(stack_translations(s) == s.last().translated() + stack_translations(d));
        assert(stack_translations(s) == stack_translations(rest) + s[0].translated());
    } else {
        assert(rest.len() == 0);
        assert(s.drop_last().len() == 0);
        assert(s.last() == s[0]);
        assert(stack_lines(s.drop_last()) =~= Seq::<String>::empty());
        assert(stack_translations(s.drop_last()) =~= Seq::<String>::empty());
        assert(stack_lines(s) =~= s[0].original() + Seq::<String>::empty());
        assert(stack_translations(s) =~= s[0].translated() + Seq::<String>::empty());
    }
}

/// The translated lines of the segments `lo..hi` of a stack, from the top down, grow by
/// one segment at the bottom.
proof fn lemma_translations_extend(t: Seq<Segment>, lo: int, hi: int)
    requires
        0 < lo <= hi <= t.len(),
    ensures
        stack_translations(t.subrange(lo - 1, hi)) == stack_translations(t.subrange(lo, hi))
            + t[lo - 1].translated(),
{
    let s = t.subrange(lo - 1, hi);
    lemma_stack_bottom(s);
    assert(s.subrange(1, s.len() as int) == t.subrange(lo, hi));
}

/// The request that a pipeline needs answered next: its chunks, sent at `depth`.
#[derive(Debug)]
pub struct Round {
    pub depth: u32,
    pub chunks: Vec<Chunk>,
}

/// Why a pipeline stops without an output.
#[derive(Debug, PartialEq, Eq, Structural)]
pub enum PipelineError {
    /// The chunk numbered `number` still came back with `received` lines for `expected`
    /// at the deepest retry level.
    RetryExhausted { number: i32, expected: usize, received: usize },
    /// The results handed back do not answer the round that was sent.
    UnexpectedResults,
}

/// The translation of a sequence of lines, driven one round of requests at a time.
///
/// Segments wait on a stack, the next one on top. A round sends the topmost pending
/// segment's lines in chunks; its results replace the segment in place, each chunk by its
/// translation or, where the line count differs, by its lines one retry level deeper.
pub struct Pipeline {
    chunk_size: usize,
    output: Vec<String>,
    todo: Vec<Segment>,
    in_flight: Vec<Vec<String>>,
    depth: u32,
    waiting: bool,
    input: Ghost<Seq<String>>,
    accepted_originals: Ghost<Seq<Seq<String>>>,
    accepted_translations: Ghost<Seq<Seq<String>>>,
}

impl Pipeline {
    /// The lines to translate.
    pub closed spec fn input(&self) -> Seq<String> {
        self.input@
    }

    /// The configured number of lines per request.
    pub closed spec fn chunk_size(&self) -> usize {
        self.chunk_size
    }

    /// The translated lines settled so far, in input order.
    pub closed spec fn output(&self) -> Seq<String> {
        self.output@
    }

    /// The segments still to settle, the next one last.
    pub closed spec fn todo(&self) -> Seq<Segment> {
        self.todo@
    }

    /// A round has been handed out and its results are awaited.
    pub closed spec fn waiting(&self) -> bool {
        self.waiting
    }

    /// The lines of each chunk of the awaited round, by number.
    pub closed spec fn round_lines(&self) -> Seq<Seq<String>> {
        self.in_flight@.map_values(|v: Vec<String>| v@)
    }

    /// The retry depth of the awaited round.
    pub closed spec fn round_depth(&self) -> u32 {
        self.depth
    }

    /// The input lines of the settled chunks, one entry per chunk, in input order.
    pub closed spec fn accepted_originals(&self) -> Seq<Seq<String>> {
        self.accepted_originals@
    }

    /// The translations of the settled chunks, one entry per chunk, in input order.
    pub closed spec fn accepted_translations(&self) -> Seq<Seq<String>> {
        self.accepted_translations@
    }

    /// The work left: that of the pending segments and of the awaited round. Each
    /// completed round lowers it, so the rounds of a pipeline are finitely many.
    pub closed spec fn work(&self) -> nat {
        stack_work(self.todo@) + if self.waiting {
            self.round_lines().flatten().len() * levels_left(self.depth)
        } else {
            0
        }
    }

    /// The input is the settled chunks' lines, then the awaited round's, then the stack's
    /// from the top down; the output is the settled chunks' translations, each as long as
    /// its chunk; pending segments are non-empty and no deeper than the deepest level.
    pub closed spec fn wf(&self) -> bool {
        &&& self.chunk_size > 0
        &&& self.input@.len() <= i32::MAX
        &&& self.accepted_originals@.len() == self.accepted_translations@.len()
        &&& forall|i: int|
            0 <= i < self.accepted_originals@.len() ==> (#[trigger] self.accepted_originals@[i]).len()
                == self.accepted_translations@[i].len()
        &&& self.output@ == self.accepted_translations@.flatten()
        &&& self.input@ == self.accepted_originals@.flatten() + (if self.waiting {
            self.round_lines().flatten()
        } else {
            Seq::empty()
        }) + stack_lines(self.todo@)
        &&& forall|i: int| 0 <= i < self.todo@.len() ==> (#[trigger] self.todo@[i]).well_formed()
        &&& self.waiting ==> {
            &&& self.depth <= MAX_RETRY_DEPTH
            &&& 0 < self.in_flight@.len() <= i32::MAX
            &&& forall|k: int|
                0 <= k < self.in_flight@.len() ==> 0 < (#[trigger] self.in_flight@[k])@.len()
                    <= i32::MAX
        }
    }

    /// Starts the translation of `lines`, sent `chunk_size` lines per request.
    pub fn new(lines: Vec<String>, chunk_size: usize) -> (p: Pipeline)
        requires
            chunk_size > 0,
            lines@.len() <= i32::MAX,
        ensures
            p.wf(),
            p.input() == lines@,
            p.chunk_size() == chunk_size,
            p.output().len() == 0,
            !p.waiting(),
            p.work() == lines@.len() * levels_left(0),
            lines@.len() == 0 ==> p.todo().len() == 0,
            lines@.len() > 0 ==> p.todo().len() == 1 && (match p.todo()[0] {
                Segment::Pending { lines: l, depth } => l@ == lines@ && depth == 0,
                Segment::Done { .. } => false,
            }),
    {
        let ghost all = lines@;
        let mut todo: Vec<Segment> = Vec::new();
        if lines.len() > 0 {
            todo.push(Segment::Pending { lines, depth: 0 });
        }
        let p = Pipeline {
            chunk_size,
            output: Vec::new(),
            todo,
            in_flight: Vec::new(),
            depth: 0,
            waiting: false,
            input: Ghost(all),
            accepted_originals: Ghost(Seq::empty()),
            accepted_translations: Ghost(Seq::empty()),
        };
        proof {
            let t = p.todo@;
            if t.len() == 1 {
                assert(t.drop_last().len() == 0);
                assert(t.last().original() == all);
                assert(stack_lines(t.drop_last()) =~= Seq::<String>::empty());
                assert(stack_lines(t) =~= all + Seq::<String>::empty());
            }
            assert(Seq::<Seq<String>>::empty().flatten() == Seq::<String>::empty());
            if t.len() == 1 {
                assert(stack_work(t.drop_last()) == 0);
            } else {
                assert(all.len() == 0);
            }
            assert(all =~= Seq::<Seq<String>>::empty().flatten() + Seq::<String>::empty()
                + stack_lines(t));
        }
        p
    }

    /// Settles the finished segments on top of the stack into the output and hands out
    /// the round for the topmost pending one, or `None` when nothing is left to send.
    pub fn next_round(&mut self) -> (r: Option<Round>)
        requires
            old(self).wf(),
            !old(self).waiting(),
        ensures
            final(self).wf(),
            final(self).input() == old(self).input(),
            final(self).chunk_size() == old(self).chunk_size(),
            final(self).work() == old(self).work(),
            ({
                let t = old(self).todo();
                let j = top_pending(t);
                &&& final(self).output() == old(self).output() + stack_translations(
                    t.subrange(j + 1, t.len() as int),
                )
                &&& j < 0 ==> r is None && final(self).todo().len() == 0 && !final(self).waiting()
                &&& j >= 0 ==> (r matches Some(round) && is_round_of(
                    round,
                    t[j],
                    old(self).chunk_size(),
                ) && final(self).todo() == t.subrange(0, j) && final(self).waiting()
                    && final(self).round_lines() == chunk_lines_of(round.chunks@)
                    && final(self).round_depth() == round.depth)
            }),
    {
        assert(old(self).work() == stack_work(old(self).todo@) + 0);
        loop
            invariant
                self.wf(),
                !self.waiting,
                self.input@ == old(self).input@,
                self.chunk_size == old(self).chunk_size,
                self.todo@.len() <= old(self).todo@.len(),
                self.todo@ == old(self).todo@.subrange(0, self.todo@.len() as int),
                top_pending(self.todo@) == top_pending(old(self).todo@),
                stack_work(self.todo@) == stack_work(old(self).todo@),
                !old(self).waiting,
                old(self).work() == stack_work(old(self).todo@),
                self.output@ == old(self).output@ + stack_translations(
                    old(self).todo@.subrange(self.todo@.len() as int, old(self).todo@.len() as int),
                ),
            decreases self.todo@.len(),
        {
            let ghost n = self.todo@.len() as int;
            let ghost acc_o = self.accepted_originals@;
            let ghost acc_t = self.accepted_translations@;
            match self.todo.pop() {
                None => {
                    assert(old(self).todo@.subrange(0, 0) == self.todo@);
                    assert(top_pending(self.todo@) == -1);
                    assert(stack_work(self.todo@) == 0);
                    assert(old(self).work() == stack_work(old(self).todo@));
                    return None;
                },
                Some(Segment::Done { original, mut translated }) => {
                    proof {
                        lemma_translations_extend(old(self).todo@, n, old(self).todo@.len() as int);
                        assert(old(self).todo@.subrange(0, n).drop_last() == self.todo@);
                        assert(old(self).todo@.subrange(0, n).last() == old(self).todo@[n - 1]);
                        assert(old(self).todo@[n - 1].well_formed());
                        self.accepted_originals@ = acc_o.push(original@);
                        self.accepted_translations@ = acc_t.push(translated@);
                        acc_o.lemma_flatten_push(original@);
                        acc_t.lemma_flatten_push(translated@);
                    }
                    self.output.append(&mut translated);
                    proof {
                        assert forall|i: int| 0 <= i < self.todo@.len() implies (#[trigger] self.todo@[i]).well_formed() by {
                            assert(self.todo@[i] == old(self).todo@.subrange(0, n)[i]);
                        }
                        assert forall|i: int| 0 <= i < self.accepted_originals@.len() implies (#[trigger] self.accepted_originals@[i]).len()
                            == self.accepted_translations@[i].len() by {
                            if i < acc_o.len() {
                                assert(self.accepted_originals@[i] == acc_o[i]);
                            }
                        }
                        assert(self.input@ =~= self.accepted_originals@.flatten() + Seq::<String>::empty() + stack_lines(self.todo@));
                    }
                },
                Some(Segment::Pending { lines, depth }) => {
                    proof {
                        assert(old(self).todo@.subrange(0, n).drop_last() == self.todo@);
                        assert(old(self).todo@.subrange(0, n).last() == old(self).todo@[n - 1]);
                        assert(old(self).todo@[n - 1].well_formed());
                        assert(top_pending(old(self).todo@) == n - 1);
                    }
                    let size: usize = if depth == 0 {
                        self.chunk_size
                    } else {
                        1
                    };
                    let chunks = chunk_lines(lines, size);
                    proof {
                        lemma_chunks_cover(chunks@, old(self).todo@[n - 1].original(), size as nat);
                        lemma_chunk_sizes(chunks@, old(self).todo@[n - 1].original(), size as nat);
                    }
                    let mut in_flight: Vec<Vec<String>> = Vec::new();
                    let mut k: usize = 0;
                    while k < chunks.len()
                        invariant
                            k <= chunks@.len(),
                            in_flight@.len() == k,
                            forall|i: int| 0 <= i < k ==> (#[trigger] in_flight@[i])@ == chunks@[i].lines@,
                        decreases chunks@.len() - k,
                    {
                        in_flight.push(copy_lines(&chunks[k].lines));
                        k = k + 1;
                    }
                    self.in_flight = in_flight;
                    self.depth = depth;
                    self.waiting = true;
                    proof {
                        assert(self.round_lines() =~= chunk_lines_of(chunks@));
                        assert(self.todo@ =~= old(self).todo@.subrange(0, n - 1));
                        assert(old(self).todo@[n - 1].original().len() <= i32::MAX);
                        assert(chunks@.len() <= old(self).todo@[n - 1].original().len()) by {
                            assert(chunk_lines_of(chunks@).flatten() == old(self).todo@[n - 1].original());
                            chunks_total_at_least_count(chunk_lines_of(chunks@));
                        }
                        assert(self.input@ =~= self.accepted_originals@.flatten() + self.round_lines().flatten() + stack_lines(self.todo@));
                        assert(stack_work(old(self).todo@.subrange(0, n)) == segment_work(old(self).todo@[n - 1]) + stack_work(self.todo@));
                        assert(old(self).work() == stack_work(old(self).todo@));
                        assert(self.round_lines().flatten().len() == old(self).todo@[n - 1].original().len());
                    }
                    return Some(Round { depth, chunks });
                },
            }
        }
    }


    /// Takes the results of the awaited round, in any order, and puts each chunk's outcome
    /// in the segment's place: its translation when the line count matches, else its
    /// lines again one retry level deeper. Hands back the usage statistics in number
    /// order. Fails, leaving the pipeline as it was, when the results do not answer the
    /// round, or when a count differs at the deepest level.
    pub fn complete_round<S>(&mut self, answers: Vec<BulkTranslated<S>>) -> (r: Result<
        Vec<S>,
        PipelineError,
    >)
        requires
            old(self).wf(),
            old(self).waiting(),
        ensures
            final(self).wf(),
            ({
                let e = old(self).round_lines();
                let d = old(self).round_depth();
                let rs = answers@;
                let m = e.len();
                let n = old(self).todo().len();
                &&& !round_valid(e, rs) <==> (r matches Err(PipelineError::UnexpectedResults))
                &&& r is Err ==> *final(self) == *old(self)
                &&& round_valid(e, rs) && d >= MAX_RETRY_DEPTH && (exists|k: int|
                    0 <= k < m && mismatched(e, rs, k)) ==> (r matches Err(
                    PipelineError::RetryExhausted { number, expected, received },
                ) && 1 <= number <= m && mismatched(e, rs, number - 1) && (forall|k: int|
                    0 <= k < number - 1 ==> !mismatched(e, rs, k)) && expected == e[number
                    - 1].len() && received == translation_of(rs, number - 1).len())
                &&& round_valid(e, rs) && (d < MAX_RETRY_DEPTH || forall|k: int|
                    0 <= k < m ==> !mismatched(e, rs, k)) ==> (r matches Ok(stats) && stats@
                    == stats_in_order(rs) && !final(self).waiting() && final(self).input()
                    == old(self).input() && final(self).chunk_size() == old(self).chunk_size()
                    && final(self).output() == old(self).output() && final(self).work()
                    < old(self).work() && final(self).todo().len()
                    == n + m && final(self).todo().subrange(0, n as int) == old(self).todo() && (
                forall|k: int|
                    0 <= k < m ==> is_outcome(
                        final(self).todo()[n + m - 1 - k],
                        e[k],
                        #[trigger] translation_of(rs, k),
                        d,
                    )))
            }),
    {
        let ghost e = old(self).round_lines();
        let ghost rs = answers@;
        let m = self.in_flight.len();
        if answers.len() != m {
            return Err(PipelineError::UnexpectedResults);
        }
        let mut slots: Vec<Option<BulkTranslated<S>>> = Vec::new();
        while slots.len() < m
            invariant
                rs == answers@,
                slots@.len() <= m,
                forall|k: int| 0 <= k < slots@.len() ==> (#[trigger] slots@[k]) is None,
            decreases m - slots@.len(),
        {
            slots.push(None);
        }
        let mut results = answers;
        while results.len() > 0
            invariant
                rs == answers@,
                *self == *old(self),
                m == self.in_flight@.len(),
                self.wf(),
                self.waiting,
                e == self.round_lines(),
                e.len() == m,
                rs.len() == m,
                results@.len() <= rs.len(),
                results@ == rs.subrange(0, results@.len() as int),
                slots@.len() == m,
                forall|i: int|
                    results@.len() <= i < rs.len() ==> 1 <= (#[trigger] rs[i]).number <= m
                        && slots@[rs[i].number - 1] == Some(rs[i]) && texts(rs[i].original_lines@)
                        == texts(e[rs[i].number - 1]),
                forall|i: int, j: int|
                    results@.len() <= i < j < rs.len() ==> (#[trigger] rs[i]).number
                        != (#[trigger] rs[j]).number,
                forall|k: int|
                    0 <= k < m ==> ((#[trigger] slots@[k]) is Some ==> exists|i: int|
                        results@.len() <= i < rs.len() && rs[i].number == k + 1),
            decreases results@.len(),
        {
            let ghost i = results@.len() - 1;
            let res = results.pop().unwrap();
            assert(res == rs[i]);
            let number = res.number;
            if number < 1 || number as usize > m {
                return Err(PipelineError::UnexpectedResults);
            }
            let k = (number - 1) as usize;
            if slots[k].is_some() {
                proof {
                    assert(slots@[k as int] is Some);
                    assert(exists|j: int| results@.len() < j < rs.len() && rs[j].number == k + 1);
                    let j = choose|j: int| results@.len() < j < rs.len() && rs[j].number == k + 1;
                    assert(rs[i].number == rs[j].number);
                }
                return Err(PipelineError::UnexpectedResults);
            }
            if !same_lines(&res.original_lines, &self.in_flight[k]) {
                return Err(PipelineError::UnexpectedResults);
            }
            slots.set(k, Some(res));
            proof {
                assert forall|k2: int| 0 <= k2 < m && (#[trigger] slots@[k2]) is Some implies exists|i2: int|
                    results@.len() <= i2 < rs.len() && rs[i2].number == k2 + 1 by {
                    if k2 == k {
                        assert(rs[i].number == k2 + 1);
                    }
                }
            }
        }
        let mut k: usize = 0;
        while k < m
            invariant
                rs == answers@,
                *self == *old(self),
                self.wf(),
                e == self.round_lines(),
                e.len() == m,
                rs.len() == m,
                slots@.len() == m,
                k <= m,
                forall|kk: int| 0 <= kk < k ==> (#[trigger] slots@[kk]) is Some,
                forall|i: int|
                    0 <= i < rs.len() ==> 1 <= (#[trigger] rs[i]).number <= m
                        && slots@[rs[i].number - 1] == Some(rs[i]) && texts(rs[i].original_lines@)
                        == texts(e[rs[i].number - 1]),
                forall|i: int, j: int|
                    0 <= i < j < rs.len() ==> (#[trigger] rs[i]).number
                        != (#[trigger] rs[j]).number,
            decreases m - k,
        {
            if slots[k].is_none() {
                proof {
                    if round_valid(e, rs) {
                        assert(answered(rs, k as int));
                        let i = choose|i: int| 0 <= i < rs.len() && (#[trigger] rs[i]).number == k + 1;
                        assert(slots@[k as int] == Some(rs[i]));
                    }
                }
                return Err(PipelineError::UnexpectedResults);
            }
            k = k + 1;
        }
        proof {
            assert(round_valid(e, rs)) by {
                assert forall|kk: int| 0 <= kk < e.len() implies #[trigger] answered(rs, kk) by {
                    assert(slots@[kk] is Some);
                }
            }
            assert forall|kk: int| 0 <= kk < m implies #[trigger] slots@[kk] == Some(rs[numbered(rs, kk)]) by {
                assert(answered(rs, kk));
                let i = numbered(rs, kk);
                assert(rs[i].number == kk + 1);
            }
        }
        let d = self.depth;
        if d >= MAX_RETRY_DEPTH {
            let mut k: usize = 0;
            while k < m
                invariant
                    rs == answers@,
                    *self == *old(self),
                    self.wf(),
                    round_valid(e, rs),
                    e.len() == m,
                    m <= i32::MAX,
                    d == self.depth,
                    d >= MAX_RETRY_DEPTH,
                    k <= m,
                    slots@.len() == m,
                    m == self.in_flight@.len(),
                    e == self.round_lines(),
                    forall|kk: int| 0 <= kk < m ==> #[trigger] slots@[kk] == Some(rs[numbered(rs, kk)]),
                    forall|kk: int| 0 <= kk < k ==> !mismatched(e, rs, kk),
                decreases m - k,
            {
                let received = match &slots[k] {
                    Some(x) => x.translated_lines.len(),
                    None => 0,
                };
                let expected = self.in_flight[k].len();
                proof {
                    assert(slots@[k as int] == Some(rs[numbered(rs, k as int)]));
                    assert(e[k as int] == self.in_flight@[k as int]@);
                }
                if received != expected {
                    proof {
                        assert(received == translation_of(rs, k as int).len());
                        assert(expected == e[k as int].len());
                        assert(mismatched(e, rs, k as int));
                        assert((k + 1) as i32 - 1 == k);
                    }
                    return Err(PipelineError::RetryExhausted { number: (k + 1) as i32, expected, received });
                }
                k = k + 1;
            }
        }
        assert(d >= MAX_RETRY_DEPTH ==> forall|kk: int| 0 <= kk < m ==> !mismatched(e, rs, kk));
        let ghost slots0 = slots@;
        let ghost flight0 = self.in_flight@;
        let ghost todo0 = self.todo@;
        let ghost n = todo0.len();
        let mut stats_rev: Vec<S> = Vec::new();
        while slots.len() > 0
            invariant
                self.input@ == old(self).input@,
                self.output@ == old(self).output@,
                self.chunk_size == old(self).chunk_size,
                self.accepted_originals@ == old(self).accepted_originals@,
                self.accepted_translations@ == old(self).accepted_translations@,
                todo0 == old(self).todo@,
                e == old(self).round_lines(),
                rs == answers@,
                slots@.len() == self.in_flight@.len(),
                slots@.len() <= m,
                m == slots0.len(),
                m == flight0.len(),
                e == flight0.map_values(|v: Vec<String>| v@),
                slots@ == slots0.subrange(0, slots@.len() as int),
                self.in_flight@ == flight0.subrange(0, slots@.len() as int),
                forall|kk: int| 0 <= kk < m ==> #[trigger] slots0[kk] == Some(rs[numbered(rs, kk)]),
                d == self.depth,
                d <= MAX_RETRY_DEPTH,
                d >= MAX_RETRY_DEPTH ==> forall|kk: int| 0 <= kk < m ==> !mismatched(e, rs, kk),
                forall|kk: int| 0 <= kk < m ==> 0 < (#[trigger] flight0[kk])@.len() <= i32::MAX,
                self.todo@.len() == n + m - slots@.len(),
                self.todo@.subrange(0, n as int) == todo0,
                forall|kk: int|
                    slots@.len() <= kk < m ==> is_outcome(
                        self.todo@[n + m - 1 - kk],
                        e[kk],
                        #[trigger] translation_of(rs, kk),
                        d,
                    ),
                forall|i: int| 0 <= i < self.todo@.len() ==> (#[trigger] self.todo@[i]).well_formed(),
                stack_lines(self.todo@) == e.subrange(slots@.len() as int, m as int).flatten() + stack_lines(todo0),
                stats_rev@.len() == m - slots@.len(),
                stack_work(self.todo@) <= stack_work(todo0) + e.subrange(slots@.len() as int, m as int).flatten().len()
                    * (MAX_RETRY_DEPTH - d),
                forall|j: int|
                    0 <= j < stats_rev@.len() ==> #[trigger] stats_rev@[j] == rs[numbered(rs, m - 1 - j)].stats,
            decreases slots@.len(),
        {
            let ghost kk = slots@.len() - 1;
            let slot = slots.pop().unwrap();
            let lines = self.in_flight.pop().unwrap();
            proof {
                assert(slot == slots0[kk]);
                assert(lines == flight0[kk]);
                assert(e[kk] == lines@);
            }
            let x = slot.unwrap();
            proof {
                assert(x == rs[numbered(rs, kk)]);
                assert(x.translated_lines@ == translation_of(rs, kk));
            }
            let BulkTranslated { number: _, original_lines: _, translated_lines, stats } = x;
            let ghost before = self.todo@;
            if translated_lines.len() == lines.len() {
                self.todo.push(Segment::Done { original: lines, translated: translated_lines });
            } else {
                proof {
                    assert(mismatched(e, rs, kk));
                }
                self.todo.push(Segment::Pending { lines, depth: d + 1 });
            }
            stats_rev.push(stats);
            proof {
                let tl = e.subrange(kk + 1, m as int).flatten().len();
                assert(e.subrange(kk, m as int).flatten().len() == lines@.len() + tl) by {
                    assert(e.subrange(kk, m as int).drop_first() =~= e.subrange(kk + 1, m as int));
                    assert(e.subrange(kk, m as int)[0] == e[kk]);
                }
                assert(self.todo@.drop_last() == before);
                assert(stack_work(self.todo@) == segment_work(self.todo@.last()) + stack_work(before));
                let c = (MAX_RETRY_DEPTH - d) as int;
                assert((lines@.len() + tl) * c == lines@.len() * c + tl * c) by (nonlinear_arith);
                assert(0 <= tl * c) by (nonlinear_arith) requires 0 <= c, 0 <= tl;
                assert(0 <= lines@.len() * c) by (nonlinear_arith) requires 0 <= c;
                assert(self.todo@.drop_last() == before);
                assert(self.todo@.subrange(0, n as int) =~= todo0);
                let tail = e.subrange(kk + 1, m as int);
                assert(e.subrange(kk, m as int) =~= seq![e[kk]] + tail);
                assert(e.subrange(kk, m as int).drop_first() =~= tail);
                assert forall|j: int| slots@.len() <= j < m implies is_outcome(
                        self.todo@[n + m - 1 - j],
                        e[j],
                        #[trigger] translation_of(rs, j),
                        d,
                    ) by {
                    if j > kk {
                        assert(self.todo@[n + m - 1 - j] == before[n + m - 1 - j]);
                    }
                }
                assert forall|i: int| 0 <= i < self.todo@.len() implies (#[trigger] self.todo@[i]).well_formed() by {
                    if i < before.len() {
                        assert(self.todo@[i] == before[i]);
                    }
                }
            }
        }
        let mut stats: Vec<S> = Vec::new();
        while stats_rev.len() > 0
            invariant
                rs == answers@,
                stats_rev@.len() + stats@.len() == m,
                forall|j: int| 0 <= j < stats@.len() ==> #[trigger] stats@[j] == rs[numbered(rs, j)].stats,
                forall|j: int| 0 <= j < stats_rev@.len() ==> #[trigger] stats_rev@[j] == rs[numbered(rs, m - 1 - j)].stats,
            decreases stats_rev@.len(),
        {
            let st = stats_rev.pop().unwrap();
            stats.push(st);
        }
        self.waiting = false;
        proof {
            assert(e.subrange(0, m as int) =~= e);
            assert(old(self).input@ == old(self).accepted_originals@.flatten() + e.flatten()
                + stack_lines(todo0));
            assert(stats@ =~= stats_in_order(rs));
            let total = e.flatten().len();
            assert forall|kk: int| 0 <= kk < e.len() implies (#[trigger] e[kk]).len() > 0 by {
                assert(e[kk] == flight0[kk]@);
            }
            chunks_total_at_least_count(e);
            assert(total >= 1);
            let c = (MAX_RETRY_DEPTH - d) as int;
            assert(total * c < total * (c + 1)) by (nonlinear_arith) requires total >= 1, c >= 0;
            assert(self.input@ =~= self.accepted_originals@.flatten() + Seq::<String>::empty() + stack_lines(self.todo@));
        }
        Ok(stats)
    }
    /// The translated lines, once nothing is left to send.
    pub fn into_output(self) -> (r: Vec<String>)
        requires
            self.wf(),
            !self.waiting(),
            self.todo().len() == 0,
        ensures
            r@ == self.output(),
    {
        self.output
    }
}

proof fn lemma_flatten_same_lengths(a: Seq<Seq<String>>, b: Seq<Seq<String>>)
    requires
        a.len() == b.len(),
        forall|i: int| 0 <= i < a.len() ==> (#[trigger] a[i]).len() == b[i].len(),
    ensures
        a.flatten().len() == b.flatten().len(),
    decreases a.len(),
{
    if a.len() > 0 {
        assert forall|i: int| 0 <= i < a.drop_first().len() implies (#[trigger] a.drop_first()[i]).len()
            == b.drop_first()[i].len() by {
            assert(a.drop_first()[i] == a[i + 1]);
            assert(b.drop_first()[i] == b[i + 1]);
        }
        lemma_flatten_same_lengths(a.drop_first(), b.drop_first());
    }
}

proof fn lemma_empty_stack(s: Seq<Segment>)
    requires
        forall|i: int| 0 <= i < s.len() ==> (#[trigger] s[i]).well_formed(),
        stack_lines(s).len() == 0,
    ensures
        top_pending(s) == -1,
        stack_translations(s).len() == 0,
    decreases s.len(),
{
    if s.len() > 0 {
        let d = s.drop_last();
        assert(s[s.len() - 1].well_formed());
        assert forall|i: int| 0 <= i < d.len() implies (#[trigger] d[i]).well_formed() by {
            assert(d[i] == s[i]);
        }
        lemma_empty_stack(d);
    }
}

impl Pipeline {
    /// Once nothing is left to send, the output has exactly as many lines as the input:
    /// the input is the concatenation of the settled chunks' lines, the output the
    /// concatenation of their translations, in the same order, each translation as long
    /// as its chunk.
    pub proof fn lemma_output_matches_input(&self)
        requires
            self.wf(),
            !self.waiting(),
            self.todo().len() == 0,
        ensures
            self.output().len() == self.input().len(),
            self.input() == self.accepted_originals().flatten(),
            self.output() == self.accepted_translations().flatten(),
            self.accepted_originals().len() == self.accepted_translations().len(),
            forall|i: int|
                0 <= i < self.accepted_originals().len() ==> (#[trigger] self.accepted_originals()[i]).len()
                    == self.accepted_translations()[i].len(),
    {
        assert(stack_lines(self.todo@) =~= Seq::<String>::empty());
        assert(self.input@ =~= self.accepted_originals@.flatten());
        lemma_flatten_same_lengths(self.accepted_originals@, self.accepted_translations@);
    }

    /// A pipeline over no lines has nothing to send and nothing to output: its next
    /// round is none, and settling it adds no line.
    pub proof fn lemma_empty_input_sends_nothing(&self)
        requires
            self.wf(),
            !self.waiting(),
            self.input().len() == 0,
        ensures
            top_pending(self.todo()) == -1,
            stack_translations(self.todo()).len() == 0,
            self.output().len() == 0,
    {
        lemma_flatten_same_lengths(self.accepted_originals@, self.accepted_translations@);
        lemma_empty_stack(self.todo@);
    }
}

/// Some position of `perm` holds `i`.
pub open spec fn reached(perm: Seq<int>, i: int) -> bool {
    exists|j: int| 0 <= j < perm.len() && #[trigger] perm[j] == i
}

/// The outcome of a round does not depend on the order in which its results come back:
/// results that are a permutation of each other are valid alike, and give every chunk
/// the same translation and the statistics in the same order.
pub proof fn lemma_completion_order_irrelevant<S>(
    expected: Seq<Seq<String>>,
    first: Seq<BulkTranslated<S>>,
    second: Seq<BulkTranslated<S>>,
    perm: Seq<int>,
)
    requires
        perm.len() == first.len(),
        second.len() == first.len(),
        forall|j: int| 0 <= j < perm.len() ==> 0 <= #[trigger] perm[j] < first.len(),
        forall|j: int, l: int| 0 <= j < l < perm.len() ==> #[trigger] perm[j] != #[trigger] perm[l],
        forall|i: int| 0 <= i < first.len() ==> #[trigger] reached(perm, i),
        forall|j: int| 0 <= j < second.len() ==> #[trigger] second[j] == first[perm[j]],
    ensures
        round_valid(expected, first) == round_valid(expected, second),
        round_valid(expected, first) ==> stats_in_order(first) == stats_in_order(second),
        round_valid(expected, first) ==> forall|k: int|
            0 <= k < expected.len() ==> #[trigger] translation_of(first, k) == translation_of(second, k),
{
    if round_valid(expected, first) {
        assert forall|k: int| 0 <= k < expected.len() implies #[trigger] answered(second, k) by {
            assert(answered(first, k));
            let i = choose|i: int| 0 <= i < first.len() && (#[trigger] first[i]).number == k + 1;
            assert(reached(perm, i));
            let j = choose|j: int| 0 <= j < perm.len() && #[trigger] perm[j] == i;
            assert(second[j] == first[i]);
        }
        assert forall|a: int, b: int| 0 <= a < b < second.len() implies (#[trigger] second[a]).number
            != (#[trigger] second[b]).number by {
            assert(second[a] == first[perm[a]]);
            assert(second[b] == first[perm[b]]);
            if perm[a] < perm[b] {
                assert(first[perm[a]].number != first[perm[b]].number);
            } else {
                assert(first[perm[b]].number != first[perm[a]].number);
            }
        }
        assert forall|j: int| 0 <= j < second.len() implies 1 <= (#[trigger] second[j]).number
            <= expected.len() && texts(second[j].original_lines@) == texts(
            expected[second[j].number - 1],
        ) by {
            assert(second[j] == first[perm[j]]);
        }
        assert(round_valid(expected, second));
    }
    if round_valid(expected, second) {
        assert forall|k: int| 0 <= k < expected.len() implies #[trigger] answered(first, k) by {
            assert(answered(second, k));
            let j = choose|j: int| 0 <= j < second.len() && (#[trigger] second[j]).number == k + 1;
            assert(second[j] == first[perm[j]]);
        }
        assert forall|a: int, b: int| 0 <= a < b < first.len() implies (#[trigger] first[a]).number
            != (#[trigger] first[b]).number by {
            assert(reached(perm, a) && reached(perm, b));
            let ja = choose|j: int| 0 <= j < perm.len() && #[trigger] perm[j] == a;
            let jb = choose|j: int| 0 <= j < perm.len() && #[trigger] perm[j] == b;
            assert(second[ja] == first[a]);
            assert(second[jb] == first[b]);
            if ja < jb {
                assert(second[ja].number != second[jb].number);
            } else {
                assert(second[jb].number != second[ja].number);
            }
        }
        assert forall|i: int| 0 <= i < first.len() implies 1 <= (#[trigger] first[i]).number
            <= expected.len() && texts(first[i].original_lines@) == texts(
            expected[first[i].number - 1],
        ) by {
            assert(reached(perm, i));
            let j = choose|j: int| 0 <= j < perm.len() && #[trigger] perm[j] == i;
            assert(second[j] == first[i]);
        }
        assert(round_valid(expected, first));
    }
    if round_valid(expected, first) {
        assert forall|k: int| 0 <= k < expected.len() implies first[numbered(first, k)] == second[numbered(
            second,
            k,
        )] by {
            assert(answered(first, k));
            assert(answered(second, k));
            let i = numbered(first, k);
            let j = numbered(second, k);
            assert(second[j] == first[perm[j]]);
            if perm[j] != i {
                if perm[j] < i {
                    assert(first[perm[j]].number != first[i].number);
                } else {
                    assert(first[i].number != first[perm[j]].number);
                }
            }
        }
        assert(stats_in_order(first) =~= stats_in_order(second));
    }
}

/// A retry round sends its segment one line per chunk, in order: a chunk whose count
/// came back wrong is sent again line by line.
pub proof fn lemma_retry_round_is_line_by_line(round: Round, seg: Segment, chunk_size: usize)
    requires
        is_round_of(round, seg, chunk_size),
        seg matches Segment::Pending { depth, .. } && depth >= 1,
    ensures
        round.chunks@.len() == seg.original().len(),
        forall|k: int|
            0 <= k < round.chunks@.len() ==> (#[trigger] round.chunks@[k]).lines@ == seq![
                seg.original()[k],
            ] && round.chunks@[k].number == k + 1,
{
    let lines = seg.original();
    assert(chunk_count(lines.len(), 1) == lines.len());
    assert forall|k: int| 0 <= k < round.chunks@.len() implies (#[trigger] round.chunks@[k]).lines@
        == seq![lines[k]] && round.chunks@[k].number == k + 1 by {
        assert(chunk_at(lines, 1, k) =~= seq![lines[k]]);
    }
}

/// Whether two lists of lines hold the same texts.
fn same_lines(a: &Vec<String>, b: &Vec<String>) -> (r: bool)
    ensures
        r == (texts(a@) == texts(b@)),
{
    if a.len() != b.len() {
        assert(texts(a@).len() != texts(b@).len());
        return false;
    }
    let mut i: usize = 0;
    while i < a.len()
        invariant
            i <= a@.len(),
            a@.len() == b@.len(),
            forall|j: int| 0 <= j < i ==> (#[trigger] a@[j])@ == b@[j]@,
        decreases a@.len() - i,
    {
        if a[i] != b[i] {
            assert(texts(a@)[i as int] != texts(b@)[i as int]);
            return false;
        }
        i = i + 1;
    }
    assert(texts(a@) =~= texts(b@));
    true
}

/// Copies a list of lines.
fn copy_lines(v: &Vec<String>) -> (r: Vec<String>)
    ensures
        r@ == v@,
{
    let mut out: Vec<String> = Vec::new();
    let mut i: usize = 0;
    while i < v.len()
        invariant
            i <= v@.len(),
            out@ == v@.subrange(0, i as int),
        decreases v@.len() - i,
    {
        out.push(v[i].clone());
        i = i + 1;
    }
    out
}

/// Non-empty parts hold together at least as many items as there are parts.
proof fn chunks_total_at_least_count(parts: Seq<Seq<String>>)
    requires
        forall|i: int| 0 <= i < parts.len() ==> (#[trigger] parts[i]).len() > 0,
    ensures
        parts.len() <= parts.flatten().len(),
    decreases parts.len(),
{
    if parts.len() > 0 {
        chunks_total_at_least_count(parts.drop_first());
    }
}

} // verus!
