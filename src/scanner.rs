//! A byte-at-a-time state machine over JSON text that tracks nesting depth
//! and whether the current byte lies inside a string.
use vstd::prelude::*;

verus! {

/// The deepest nesting the scanner can count; an opening bracket beyond it
/// is reported as a structural error.
pub const MAX_DEPTH: u64 = 0xffff_ffff_ffff_ffff;

/// Lexical state carried from one byte to the next.
#[derive(Clone, Copy, Debug, PartialEq, Eq, Structural)]
pub struct ScanState {
    pub depth: u64,
    pub in_string: bool,
    pub escape_pending: bool,
}

/// What one byte did to the scanner.
#[derive(Clone, Copy, Debug, PartialEq, Eq, Structural)]
pub enum ScanEvent {
    Continue,
    DepthIncreased,
    DepthDecreased,
    StructuralError,
}

/// `{` or `[`.
pub open spec fn is_open(b: u8) -> bool {
    b == 0x7b || b == 0x5b
}

/// `}` or `]`.
pub open spec fn is_close(b: u8) -> bool {
    b == 0x7d || b == 0x5d
}

/// The state before any byte has been scanned.
pub open spec fn initial_state() -> ScanState {
    ScanState { depth: 0, in_string: false, escape_pending: false }
}

/// The transition on one byte: the event and the state after it. On a
/// structural error the state is left as it was.
pub open spec fn step(s: ScanState, b: u8) -> (ScanEvent, ScanState) {
    if s.in_string {
        if s.escape_pending {
            (ScanEvent::Continue, ScanState { escape_pending: false, ..s })
        } else if b == 0x5c {
            (ScanEvent::Continue, ScanState { escape_pending: true, ..s })
        } else if b == 0x22 {
            (ScanEvent::Continue, ScanState { in_string: false, ..s })
        } else {
            (ScanEvent::Continue, s)
        }
    } else if b == 0x22 {
        (ScanEvent::Continue, ScanState { in_string: true, ..s })
    } else if is_open(b) {
        if s.depth < MAX_DEPTH {
            (ScanEvent::DepthIncreased, ScanState { depth: (s.depth + 1) as u64, ..s })
        } else {
            (ScanEvent::StructuralError, s)
        }
    } else if is_close(b) {
        if s.depth > 0 {
            (ScanEvent::DepthDecreased, ScanState { depth: (s.depth - 1) as u64, ..s })
        } else {
            (ScanEvent::StructuralError, s)
        }
    } else {
        (ScanEvent::Continue, s)
    }
}

impl ScanState {
    /// An escape is pending only inside a string.
    pub open spec fn wf(self) -> bool {
        self.escape_pending ==> self.in_string
    }

    /// The state at the start of a document.
    pub fn new() -> (r: ScanState)
        ensures
            r == initial_state(),
    {
        ScanState { depth: 0, in_string: false, escape_pending: false }
    }

    /// Scans one byte.
    pub fn advance(&mut self, byte: u8) -> (e: ScanEvent)
        ensures
            (e, *final(self)) == step(*old(self), byte),
            old(self).wf() ==> final(self).wf(),
    {
        if self.in_string {
            if self.escape_pending {
                self.escape_pending = false;
            } else if byte == 0x5c {
                self.escape_pending = true;
            } else if byte == 0x22 {
                self.in_string = false;
            }
            ScanEvent::Continue
        } else if byte == 0x22 {
            self.in_string = true;
            ScanEvent::Continue
        } else if byte == 0x7b || byte == 0x5b {
            if self.depth < MAX_DEPTH {
                self.depth = self.depth + 1;
                ScanEvent::DepthIncreased
            } else {
                ScanEvent::StructuralError
            }
        } else if byte == 0x7d || byte == 0x5d {
            if self.depth > 0 {
                self.depth = self.depth - 1;
                ScanEvent::DepthDecreased
            } else {
                ScanEvent::StructuralError
            }
        } else {
            ScanEvent::Continue
        }
    }
}

} // verus!
