//! The decisions of the row sequence: on each demand, hand out a buffered
//! row, ask the upstream byte source for more, or end the sequence. The
//! caller performs the upstream reads and reports what they gave.
use vstd::prelude::*;
use crate::json_row_parser::{JsonRowParser, Outcome, run, doc_values, doc_complete, lemma_values_extend};

verus! {

/// How the upstream byte source failed.
#[derive(Clone, Debug, PartialEq, Eq)]
pub enum TransportFailure {
    /// The request's deadline passed; the text describes the failure.
    Timeout(String),
    /// Any other transport failure, described by the text.
    Other(String),
}

/// Why the row sequence ended with an error.
#[derive(Clone, Debug, PartialEq, Eq)]
pub enum FailureKind {
    /// The upstream request timed out.
    Timeout(String),
    /// The upstream transport failed otherwise.
    TransportOther(String),
    /// The document broke bracket balance or ended before it was complete.
    MalformedDocument,
}

/// What the sequence does on one demand.
#[derive(Clone, Debug, PartialEq, Eq)]
pub enum Step {
    /// Hand out this row.
    Item(Vec<u8>),
    /// Hand out this error; the sequence is over.
    Failed(FailureKind),
    /// The sequence is over.
    End,
    /// Nothing can be handed out from the bytes held: read the upstream
    /// source and report what it gave.
    NeedChunk,
}

#[derive(Clone, Copy, Debug, PartialEq, Eq, Structural)]
pub enum Lifecycle {
    Collecting,
    Done,
}

/// The state of one row sequence.
pub struct JsonRowStream {
    state: Lifecycle,
    parser: JsonRowParser,
    input_ended: bool,
}

impl JsonRowStream {
    pub closed spec fn wf(&self) -> bool {
        self.parser.wf()
    }

    pub closed spec fn is_done(&self) -> bool {
        self.state == Lifecycle::Done
    }

    /// Every byte the upstream source has delivered.
    pub closed spec fn fed(&self) -> Seq<u8> {
        self.parser.fed()
    }

    /// How many rows have been handed out.
    pub closed spec fn emitted(&self) -> nat {
        self.parser.emitted()
    }

    pub closed spec fn target(&self) -> nat {
        self.parser.target()
    }

    /// The upstream source has reported that it has no more bytes.
    pub closed spec fn input_ended(&self) -> bool {
        self.input_ended
    }

    /// A sequence over a response shaped `{"results": [...], ...}`: rows sit
    /// inside one object and one array.
    pub fn new() -> (s: JsonRowStream)
        ensures
            s.wf(),
            !s.is_done(),
            !s.input_ended(),
            s.target() == 2,
            s.fed() == Seq::<u8>::empty(),
            s.emitted() == 0,
    {
        JsonRowStream::with_target(2)
    }

    /// A sequence whose rows sit inside `target` levels of nesting.
    pub fn with_target(target: u64) -> (s: JsonRowStream)
        ensures
            s.wf(),
            !s.is_done(),
            !s.input_ended(),
            s.target() == target,
            s.fed() == Seq::<u8>::empty(),
            s.emitted() == 0,
    {
        JsonRowStream { state: Lifecycle::Collecting, parser: JsonRowParser::new(target), input_ended: false }
    }

    /// Whether the sequence is over.
    pub fn is_terminated(&self) -> (r: bool)
        ensures
            r == self.is_done(),
    {
        match self.state {
            Lifecycle::Done => true,
            Lifecycle::Collecting => false,
        }
    }

    /// Decides what to do on one demand. A finished sequence only ever ends
    /// again. Otherwise the next row of the bytes held is handed out if there
    /// is one, without reading upstream; a structural error ends the
    /// sequence with `MalformedDocument`; when upstream has more to give it
    /// is asked; when it has ended, the sequence ends cleanly if the
    /// document was complete, and with `MalformedDocument` if it was cut
    /// short.
    pub fn next_step(&mut self) -> (r: Step)
        requires
            old(self).wf(),
        ensures
            final(self).wf(),
            old(self).is_done() ==> r is End && *final(self) == *old(self),
            !old(self).is_done() ==> {
                let t = old(self).target();
                let d = old(self).fed();
                let rn = run(t, d);
                let k = old(self).emitted();
                &&& final(self).fed() == d
                &&& final(self).target() == t
                &&& final(self).input_ended() == old(self).input_ended()
                &&& if k < rn.spans.len() {
                    &&& r is Item
                    &&& r->Item_0@ == doc_values(t, d)[k as int]
                    &&& final(self).emitted() == k + 1
                    &&& !final(self).is_done()
                } else {
                    &&& final(self).emitted() == k
                    &&& if rn.failed {
                        &&& r is Failed
                        &&& r->Failed_0 is MalformedDocument
                        &&& final(self).is_done()
                    } else if !old(self).input_ended() {
                        &&& r is NeedChunk
                        &&& !final(self).is_done()
                    } else if doc_complete(t, d) {
                        &&& r is End
                        &&& final(self).is_done()
                    } else {
                        &&& r is Failed
                        &&& r->Failed_0 is MalformedDocument
                        &&& final(self).is_done()
                    }
                }
            },
    {
        if self.is_terminated() {
            return Step::End;
        }
        match self.parser.parse_next() {
            Outcome::Value(v) => Step::Item(v),
            Outcome::MalformedDocument => {
                self.state = Lifecycle::Done;
                Step::Failed(FailureKind::MalformedDocument)
            },
            Outcome::NeedMoreInput => {
                if !self.input_ended {
                    Step::NeedChunk
                } else {
                    self.state = Lifecycle::Done;
                    if self.parser.is_complete() {
                        Step::End
                    } else {
                        Step::Failed(FailureKind::MalformedDocument)
                    }
                }
            },
        }
    }

    /// Takes a chunk the upstream source delivered. Once the sequence is
    /// over, or upstream has ended, nothing more is taken.
    pub fn push_chunk(&mut self, chunk: &[u8])
        requires
            old(self).wf(),
        ensures
            final(self).wf(),
            final(self).is_done() == old(self).is_done(),
            final(self).input_ended() == old(self).input_ended(),
            final(self).target() == old(self).target(),
            final(self).emitted() == old(self).emitted(),
            final(self).fed() == if old(self).is_done() || old(self).input_ended() {
                old(self).fed()
            } else {
                old(self).fed() + chunk@
            },
    {
        if !self.is_terminated() && !self.input_ended {
            self.parser.push(chunk);
        }
    }

    /// Records that the upstream source is exhausted.
    pub fn end_of_input(&mut self)
        requires
            old(self).wf(),
        ensures
            final(self).wf(),
            final(self).input_ended(),
            final(self).is_done() == old(self).is_done(),
            final(self).target() == old(self).target(),
            final(self).emitted() == old(self).emitted(),
            final(self).fed() == old(self).fed(),
    {
        self.input_ended = true;
    }

    /// Records that the upstream source failed: the sequence ends with the
    /// failure, a timeout kept apart from other transport failures. Once the
    /// sequence is over it only ends again.
    pub fn fail(&mut self, failure: TransportFailure) -> (r: Step)
        requires
            old(self).wf(),
        ensures
            final(self).wf(),
            final(self).is_done(),
            final(self).fed() == old(self).fed(),
            final(self).emitted() == old(self).emitted(),
            final(self).input_ended() == old(self).input_ended(),
            old(self).is_done() ==> r is End && *final(self) == *old(self),
            !old(self).is_done() ==> match failure {
                TransportFailure::Timeout(m) => r is Failed && r->Failed_0 == FailureKind::Timeout(m),
                TransportFailure::Other(m) => r is Failed && r->Failed_0 == FailureKind::TransportOther(m),
            },
    {
        if self.is_terminated() {
            return Step::End;
        }
        self.state = Lifecycle::Done;
        match failure {
            TransportFailure::Timeout(m) => Step::Failed(FailureKind::Timeout(m)),
            TransportFailure::Other(m) => Step::Failed(FailureKind::TransportOther(m)),
        }
    }
}

/// The contents of each of `vs`.
pub open spec fn views(vs: Seq<Vec<u8>>) -> Seq<Seq<u8>> {
    vs.map_values(|v: Vec<u8>| v@)
}

/// The bytes of `chunks`, one after the other.
pub open spec fn concat(chunks: Seq<Seq<u8>>) -> Seq<u8>
    decreases chunks.len(),
{
    if chunks.len() == 0 {
        Seq::empty()
    } else {
        concat(chunks.drop_last()) + chunks.last()
    }
}

proof fn lemma_concat_split(cs: Seq<Seq<u8>>, i: int)
    requires
        0 <= i <= cs.len(),
    ensures
        concat(cs) == concat(cs.take(i)) + concat(cs.skip(i)),
    decreases cs.len(),
{
    if i == cs.len() {
        assert(cs.take(i) =~= cs);
        assert(cs.skip(i) =~= Seq::<Seq<u8>>::empty());
        assert(concat(cs) + Seq::<u8>::empty() =~= concat(cs));
    } else {
        lemma_concat_split(cs.drop_last(), i);
        assert(cs.drop_last().take(i) =~= cs.take(i));
        assert(cs.skip(i).drop_last() =~= cs.drop_last().skip(i));
        assert(concat(cs) =~= concat(cs.take(i)) + concat(cs.skip(i)));
    }
}

/// A document that has broken bracket balance, or that ends unfinished,
/// yields nothing more and stays incomplete whatever follows.
proof fn lemma_failed_prefix(t: nat, cs: Seq<Seq<u8>>, i: int)
    requires
        0 <= i <= cs.len(),
        run(t, concat(cs.take(i))).failed || (i == cs.len() && !doc_complete(t, concat(cs.take(i)))),
    ensures
        doc_values(t, concat(cs)) == doc_values(t, concat(cs.take(i))),
        !doc_complete(t, concat(cs)),
{
    lemma_concat_split(cs, i);
    let a = concat(cs.take(i));
    let b = concat(cs.skip(i));
    lemma_values_extend(t, a, b);
    if !run(t, a).failed {
        assert(cs.skip(i) =~= Seq::<Seq<u8>>::empty());
        assert(a + b =~= a);
    }
}

/// Runs a whole row sequence over `chunks`, delivered in order and then
/// exhausted, and returns the rows handed out and the error that ended it,
/// if any. What comes out depends only on the bytes of `chunks` one after
/// the other, never on where they were cut: it is what the document
/// yields as one piece, and `MalformedDocument` exactly when that document
/// is not complete.
pub fn collect_rows(target: u64, chunks: &Vec<Vec<u8>>) -> (r: (Vec<Vec<u8>>, Option<FailureKind>))
    ensures
        views(r.0@) == doc_values(target as nat, concat(views(chunks@))),
        match r.1 {
            None => doc_complete(target as nat, concat(views(chunks@))),
            Some(f) => f is MalformedDocument && !doc_complete(
                target as nat,
                concat(views(chunks@)),
            ),
        },
{
    let ghost t = target as nat;
    let ghost cs = views(chunks@);
    let ghost all = concat(cs);
    let mut s = JsonRowStream::with_target(target);
    let mut rows: Vec<Vec<u8>> = Vec::new();
    let mut i: usize = 0;
    let n = chunks.len();
    assert(cs.take(0) =~= Seq::<Seq<u8>>::empty());
    if n == 0 {
        s.end_of_input();
    }
    loop
        invariant
            s.wf(),
            !s.is_done(),
            s.target() == t,
            t == target as nat,
            i <= chunks@.len(),
            n == chunks@.len(),
            cs == views(chunks@),
            all == concat(cs),
            s.fed() == concat(cs.take(i as int)),
            s.input_ended() == (i == chunks@.len()),
            views(rows@) == doc_values(t, s.fed()).take(s.emitted() as int),
            s.emitted() <= doc_values(t, s.fed()).len(),
        decreases chunks@.len() - i, doc_values(t, s.fed()).len() - s.emitted(),
    {
        let ghost k = s.emitted();
        let ghost ended = s.input_ended();
        let step = s.next_step();
        match step {
            Step::Item(v) => {
                let ghost vals = doc_values(t, s.fed());
                rows.push(v);
                assert(vals.take(k as int + 1) =~= vals.take(k as int).push(vals[k as int]));
                assert(views(rows@) =~= doc_values(t, s.fed()).take(s.emitted() as int));
            },
            Step::NeedChunk => {
                let ghost before = s.fed();
                proof {
                    assert(!ended);
                    assert(cs.take(i as int + 1).drop_last() =~= cs.take(i as int));
                    lemma_values_extend(t, before, cs[i as int]);
                }
                s.push_chunk(chunks[i].as_slice());
                i = i + 1;
                if i == n {
                    s.end_of_input();
                }
                proof {
                    assert(doc_values(t, s.fed()).take(s.emitted() as int) =~= doc_values(t, before));
                }
            },
            Step::Failed(f) => {
                proof {
                    lemma_failed_prefix(t, cs, i as int);
                    assert(views(rows@) =~= doc_values(t, s.fed()));
                }
                return (rows, Some(f));
            },
            Step::End => {
                proof {
                    assert(cs.take(i as int) =~= cs);
                    assert(views(rows@) =~= doc_values(t, s.fed()));
                }
                return (rows, None);
            },
        }
    }
}

} // verus!
