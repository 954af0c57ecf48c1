//! The row extractor: buffers incoming bytes and cuts out each complete
//! element of the array of interest, then the trailing document after it.
use vstd::prelude::*;
use std::collections::VecDeque;
use crate::scanner::{ScanState, ScanEvent, step, initial_state, is_close};

verus! {

/// Where a scan of a document prefix stands: the scanner state, whether a
/// structural error has been met, whether the array of interest has closed
/// (the target is then one level lower), where the element in progress
/// began, and the `[start, end)` offsets of every complete element so far.
pub struct Run {
    pub scan: ScanState,
    pub failed: bool,
    pub lowered: bool,
    pub start: Option<nat>,
    pub spans: Seq<(nat, nat)>,
}

/// The depth at which elements are recognised: one less once the array of
/// interest has closed.
pub open spec fn effective_target(t: nat, lowered: bool) -> nat {
    if lowered {
        (t - 1) as nat
    } else {
        t
    }
}

pub open spec fn initial_run() -> Run {
    Run { scan: initial_state(), failed: false, lowered: false, start: None, spans: seq![] }
}

/// The effect of byte `b`, found at offset `i` of the document, on a run
/// with target depth `t`. An element starts when depth rises from the
/// effective target to one above it, and ends when depth comes back. When
/// depth first falls below `t` the array of interest has closed, and what
/// follows is scanned with the target lowered by one. A structural error is
/// final: later bytes change nothing.
pub open spec fn run_step(t: nat, r: Run, b: u8, i: nat) -> Run {
    if r.failed {
        r
    } else {
        let (ev, s) = step(r.scan, b);
        let e = effective_target(t, r.lowered);
        match ev {
            ScanEvent::StructuralError => Run { failed: true, ..r },
            ScanEvent::DepthIncreased => {
                if s.depth == e + 1 {
                    Run { scan: s, start: Some(i), ..r }
                } else {
                    Run { scan: s, ..r }
                }
            },
            ScanEvent::DepthDecreased => {
                if s.depth == e && r.start is Some {
                    Run { scan: s, start: None, spans: r.spans.push((r.start.unwrap(), i + 1)), ..r }
                } else if !r.lowered && s.depth + 1 == t {
                    Run { scan: s, lowered: true, ..r }
                } else {
                    Run { scan: s, ..r }
                }
            },
            ScanEvent::Continue => Run { scan: s, ..r },
        }
    }
}

/// The run over the whole of `d`.
pub open spec fn run(t: nat, d: Seq<u8>) -> Run
    decreases d.len(),
{
    if d.len() == 0 {
        initial_run()
    } else {
        run_step(t, run(t, d.drop_last()), d.last(), (d.len() - 1) as nat)
    }
}

/// The values that document `d` yields with target depth `t`, in document
/// order.
pub open spec fn doc_values(t: nat, d: Seq<u8>) -> Seq<Seq<u8>> {
    run(t, d).spans.map_values(|sp: (nat, nat)| d.subrange(sp.0 as int, sp.1 as int))
}

/// `d` ends a document cleanly: no structural error, every bracket closed,
/// no string left open.
pub open spec fn doc_complete(t: nat, d: Seq<u8>) -> bool {
    let r = run(t, d);
    !r.failed && r.scan.depth == 0 && !r.scan.in_string
}

proof fn lemma_run_extend(t: nat, d: Seq<u8>, n: nat)
    requires
        n < d.len(),
    ensures
        run(t, d.take(n as int + 1)) == run_step(t, run(t, d.take(n as int)), d[n as int], n),
{
    assert(d.take(n as int + 1).drop_last() =~= d.take(n as int));
}

proof fn lemma_run_well_formed(t: nat, d: Seq<u8>)
    ensures
        run(t, d).scan.wf(),
        forall|j: int|
            0 <= j < run(t, d).spans.len() ==> {
                let sp = #[trigger] run(t, d).spans[j];
                sp.0 < sp.1 <= d.len()
            },
        run(t, d).start matches Some(s) ==> s < d.len(),
        run(t, d).lowered ==> t >= 1,
    decreases d.len(),
{
    if d.len() > 0 {
        lemma_run_well_formed(t, d.drop_last());
    }
}

/// Scanning further only appends spans, and after a structural error
/// nothing changes.
proof fn lemma_run_grows(t: nat, d: Seq<u8>, n: nat, m: nat)
    requires
        n <= m <= d.len(),
    ensures
        run(t, d.take(n as int)).spans.len() <= run(t, d.take(m as int)).spans.len(),
        forall|j: int|
            0 <= j < run(t, d.take(n as int)).spans.len() ==> #[trigger] run(
                t,
                d.take(m as int),
            ).spans[j] == run(t, d.take(n as int)).spans[j],
        run(t, d.take(n as int)).failed ==> run(t, d.take(m as int)) == run(t, d.take(n as int)),
    decreases m - n,
{
    if n < m {
        lemma_run_grows(t, d, n, (m - 1) as nat);
        lemma_run_extend(t, d, (m - 1) as nat);
    }
}

/// Bytes appended to a document add values after those it already yields,
/// and add none once it has broken bracket balance.
pub proof fn lemma_values_extend(t: nat, a: Seq<u8>, b: Seq<u8>)
    ensures
        doc_values(t, a).len() <= doc_values(t, a + b).len(),
        doc_values(t, a + b).take(doc_values(t, a).len() as int) == doc_values(t, a),
        run(t, a).failed ==> run(t, a + b).failed && doc_values(t, a + b) == doc_values(t, a),
{
    let d = a + b;
    assert(d.take(a.len() as int) =~= a);
    assert(d.take(d.len() as int) =~= d);
    lemma_run_grows(t, d, a.len(), d.len());
    lemma_run_well_formed(t, a);
    let va = doc_values(t, a);
    let vd = doc_values(t, d);
    assert forall|j: int| 0 <= j < va.len() implies #[trigger] vd[j] == va[j] by {
        let sp = run(t, a).spans[j];
        assert(d.subrange(sp.0 as int, sp.1 as int) =~= a.subrange(sp.0 as int, sp.1 as int));
    }
    assert(vd.take(va.len() as int) =~= va);
    if run(t, a).failed {
        assert(vd =~= va);
    }
}

/// Depth never goes below zero: a closing bracket met at depth zero, outside
/// any string, makes the document malformed, and nothing after it yields a
/// value.
pub proof fn lemma_underflow_is_final(t: nat, d: Seq<u8>, n: nat)
    requires
        n < d.len(),
        !run(t, d.take(n as int)).failed,
        run(t, d.take(n as int)).scan.depth == 0,
        !run(t, d.take(n as int)).scan.in_string,
        is_close(d[n as int]),
    ensures
        run(t, d).failed,
        doc_values(t, d) == doc_values(t, d.take(n as int)),
        !doc_complete(t, d),
{
    let a = d.take(n as int);
    let a1 = d.take(n as int + 1);
    lemma_run_extend(t, d, n);
    lemma_run_well_formed(t, a);
    assert forall|j: int| 0 <= j < doc_values(t, a).len() implies #[trigger] doc_values(t, a1)[j]
        == doc_values(t, a)[j] by {
        let sp = run(t, a).spans[j];
        assert(a1.subrange(sp.0 as int, sp.1 as int) =~= a.subrange(sp.0 as int, sp.1 as int));
    }
    assert(doc_values(t, a1) =~= doc_values(t, a));
    lemma_values_extend(t, a1, d.skip(n as int + 1));
    assert(a1 + d.skip(n as int + 1) =~= d);
}

/// The outcome of asking for the next value.
#[derive(Clone, Debug, PartialEq, Eq)]
pub enum Outcome {
    /// One complete value, as the bytes of the document that hold it.
    Value(Vec<u8>),
    /// The buffered bytes hold no further complete value.
    NeedMoreInput,
    /// The document broke bracket balance; this is final.
    MalformedDocument,
}

/// Cuts a byte stream into the values at a fixed target depth.
pub struct JsonRowParser {
    target: u64,
    buf: VecDeque<u8>,
    pos: usize,
    scan: ScanState,
    lowered: bool,
    start: Option<usize>,
    failed: bool,
    fed: Ghost<Seq<u8>>,
    dropped: Ghost<nat>,
    emitted: Ghost<nat>,
}

impl JsonRowParser {
    /// Every byte pushed so far.
    pub closed spec fn fed(&self) -> Seq<u8> {
        self.fed@
    }

    /// How many values have been handed out.
    pub closed spec fn emitted(&self) -> nat {
        self.emitted@
    }

    pub closed spec fn target(&self) -> nat {
        self.target as nat
    }

    /// The bytes still held.
    pub closed spec fn pending(&self) -> Seq<u8> {
        self.buf@
    }

    /// Every byte pushed so far has been scanned.
    pub closed spec fn scanned_all(&self) -> bool {
        self.pos == self.buf@.len()
    }

    /// The buffer is the unconsumed tail of what was pushed, and the saved
    /// scanner state is that of the run over the scanned part of it.
    pub closed spec fn wf(&self) -> bool {
        let d = self.fed@;
        let n = self.dropped@ + self.pos;
        let r = run(self.target as nat, d.take(n as int));
        &&& self.dropped@ + self.buf@.len() == d.len()
        &&& self.buf@ =~= d.subrange(self.dropped@ as int, d.len() as int)
        &&& self.pos <= self.buf@.len()
        &&& r.scan == self.scan
        &&& r.failed == self.failed
        &&& r.lowered == self.lowered
        &&& r.start == (match self.start {
            Some(s) => Some((s + self.dropped@) as nat),
            None => None::<nat>,
        })
        &&& r.spans.len() == self.emitted@
    }

    /// An extractor with nothing buffered, recognising elements at depth
    /// `target + 1` (inside `target` levels of nesting).
    pub fn new(target: u64) -> (p: JsonRowParser)
        ensures
            p.wf(),
            p.target() == target,
            p.fed() == Seq::<u8>::empty(),
            p.emitted() == 0,
            p.pending() == Seq::<u8>::empty(),
    {
        let p = JsonRowParser {
            target,
            buf: VecDeque::new(),
            pos: 0,
            scan: ScanState::new(),
            lowered: false,
            start: None,
            failed: false,
            fed: Ghost(Seq::empty()),
            dropped: Ghost(0),
            emitted: Ghost(0),
        };
        assert(Seq::<u8>::empty().take(0) =~= Seq::<u8>::empty());
        p
    }

    /// Appends bytes to the buffer without scanning them.
    pub fn push(&mut self, bytes: &[u8])
        requires
            old(self).wf(),
        ensures
            final(self).wf(),
            final(self).fed() == old(self).fed() + bytes@,
            final(self).emitted() == old(self).emitted(),
            final(self).target() == old(self).target(),
            final(self).pending() == old(self).pending() + bytes@,
    {
        let ghost d0 = self.fed@;
        let ghost n = self.dropped@ + self.pos;
        let mut i: usize = 0;
        while i < bytes.len()
            invariant
                i <= bytes@.len(),
                self.fed@ == d0 + bytes@.take(i as int),
                self.wf(),
                self.dropped@ + self.pos == n,
                n <= d0.len(),
                self.emitted@ == old(self).emitted@,
                self.target == old(self).target,
                self.buf@ == old(self).buf@ + bytes@.take(i as int),
            decreases bytes@.len() - i,
        {
            let ghost before = self.fed@;
            self.buf.push_back(bytes[i]);
            self.fed = Ghost(d0 + bytes@.take(i as int + 1));
            assert(bytes@.take(i as int + 1) =~= bytes@.take(i as int).push(bytes@[i as int]));
            assert(self.fed@.take(n as int) =~= before.take(n as int));
            assert(self.buf@ =~= self.fed@.subrange(self.dropped@ as int, self.fed@.len() as int));
            i = i + 1;
        }
        assert(bytes@.take(bytes@.len() as int) =~= bytes@);
    }

    /// Scans the buffered bytes from where the last call stopped and hands
    /// out the next value of the document, if the bytes pushed so far hold
    /// one. A value's bytes, and all before them, leave the buffer; when no
    /// value is complete, only the element in progress stays buffered.
    pub fn parse_next(&mut self) -> (r: Outcome)
        requires
            old(self).wf(),
        ensures
            final(self).wf(),
            final(self).fed() == old(self).fed(),
            final(self).target() == old(self).target(),
            ({
                let t = old(self).target();
                let d = old(self).fed();
                let rn = run(t, d);
                let k = old(self).emitted();
                if k < rn.spans.len() {
                    &&& r is Value
                    &&& r->Value_0@ == doc_values(t, d)[k as int]
                    &&& final(self).emitted() == k + 1
                    &&& final(self).pending() == d.subrange(rn.spans[k as int].1 as int, d.len() as int)
                } else if rn.failed {
                    &&& r is MalformedDocument
                    &&& final(self).emitted() == k
                } else {
                    &&& r is NeedMoreInput
                    &&& final(self).emitted() == k
                    &&& final(self).scanned_all()
                    &&& final(self).pending() == (match rn.start {
                        Some(s) => d.subrange(s as int, d.len() as int),
                        None => Seq::<u8>::empty(),
                    })
                }
            }),
    {
        let ghost t = self.target as nat;
        let ghost d = self.fed@;
        proof {
            assert(d.take(d.len() as int) =~= d);
            lemma_run_grows(t, d, (self.dropped@ + self.pos) as nat, d.len());
        }
        if self.failed {
            return Outcome::MalformedDocument;
        }
        while self.pos < self.buf.len()
            invariant
                self.wf(),
                self.fed@ == d,
                d == old(self).fed@,
                t == self.target,
                self.target == old(self).target,
                self.emitted@ == old(self).emitted@,
                !self.failed,
                d.take(d.len() as int) == d,
            decreases self.buf@.len() - self.pos,
        {
            let b = self.buf[self.pos];
            let ghost n: nat = (self.dropped@ + self.pos) as nat;
            proof {
                lemma_run_extend(t, d, n);
                lemma_run_well_formed(t, d.take(n as int));
                lemma_run_grows(t, d, n + 1, d.len());
                assert(b == d[n as int]);
            }
            let e: u64 = if self.lowered {
                self.target - 1
            } else {
                self.target
            };
            let ev = self.scan.advance(b);
            match ev {
                ScanEvent::StructuralError => {
                    self.failed = true;
                    self.pos = self.pos + 1;
                    return Outcome::MalformedDocument;
                },
                ScanEvent::DepthIncreased => {
                    if self.scan.depth - 1 == e {
                        self.start = Some(self.pos);
                    }
                },
                ScanEvent::DepthDecreased => {
                    if self.scan.depth == e && self.start.is_some() {
                        let s = self.start.unwrap();
                        let end = self.pos + 1;
                        let ghost b0 = self.buf@;
                        let ghost dr = self.dropped@;
                        let v = pop_front_n(&mut self.buf, s, end);
                        self.dropped = Ghost((self.dropped@ + end) as nat);
                        self.pos = 0;
                        self.start = None;
                        self.emitted = Ghost((self.emitted@ + 1) as nat);
                        proof {
                            assert(v@ =~= d.subrange(s + dr as int, n as int + 1));
                            assert(self.buf@ =~= d.subrange(n as int + 1, d.len() as int));
                        }
                        return Outcome::Value(v);
                    } else if !self.lowered && self.scan.depth + 1 == self.target {
                        self.lowered = true;
                    }
                },
                ScanEvent::Continue => {},
            }
            self.pos = self.pos + 1;
        }
        proof {
            lemma_run_well_formed(t, d);
        }
        match self.start {
            None => {
                let p = self.pos;
                pop_front_n(&mut self.buf, p, p);
                self.dropped = Ghost((self.dropped@ + p) as nat);
                self.pos = 0;
            },
            Some(s) => {
                pop_front_n(&mut self.buf, s, s);
                self.dropped = Ghost((self.dropped@ + s) as nat);
                self.pos = self.pos - s;
                self.start = Some(0);
            },
        }
        proof {
            assert(self.buf@ =~= d.subrange(self.dropped@ as int, d.len() as int));
        }
        Outcome::NeedMoreInput
    }

    /// Whether the bytes pushed so far form a whole document: no structural
    /// error, every bracket closed and no string left open.
    pub fn is_complete(&self) -> (r: bool)
        requires
            self.wf(),
            self.scanned_all(),
        ensures
            r == doc_complete(self.target(), self.fed()),
    {
        proof {
            assert(self.fed@.take(self.fed@.len() as int) =~= self.fed@);
        }
        !self.failed && self.scan.depth == 0 && !self.scan.in_string
    }
}

/// Removes the first `n` bytes of `buf` and returns those from `keep_from` on.
fn pop_front_n(buf: &mut VecDeque<u8>, keep_from: usize, n: usize) -> (v: Vec<u8>)
    requires
        keep_from <= n <= old(buf)@.len(),
    ensures
        v@ == old(buf)@.subrange(keep_from as int, n as int),
        final(buf)@ == old(buf)@.subrange(n as int, old(buf)@.len() as int),
{
    let ghost b0 = buf@;
    let mut v: Vec<u8> = Vec::new();
    let mut i: usize = 0;
    while i < n
        invariant
            i <= n,
            keep_from <= n <= b0.len(),
            buf@ == b0.subrange(i as int, b0.len() as int),
            v@ == (if i <= keep_from {
                Seq::<u8>::empty()
            } else {
                b0.subrange(keep_from as int, i as int)
            }),
        decreases n - i,
    {
        let b = buf.pop_front();
        if let Some(x) = b {
            if i >= keep_from {
                v.push(x);
            }
        }
        assert(buf@ =~= b0.subrange(i as int + 1, b0.len() as int));
        if i >= keep_from {
            assert(v@ =~= b0.subrange(keep_from as int, i as int + 1));
        }
        i = i + 1;
    }
    v
}

} // verus!
