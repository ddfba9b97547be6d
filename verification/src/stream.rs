//! The shared streaming model.
//!
//! Every codec in this crate is a single forward pass: at each input
//! position it either emits some output bytes and consumes some input
//! bytes, stops cleanly, or reports an error.  A codec's specification is
//! written as a `Step` function — what happens at one position, given the
//! remaining output capacity — and a recursive run of such steps yields a
//! [`Run`]: the total output, the final consumed count, and the error, if
//! any.  Each codec module defines its own step and run functions over
//! these types; the executable functions are proved to return exactly
//! what the run says.

use vstd::prelude::*;

verus! {

/// One decision of a streaming codec at a given input position.
pub enum Step {
    /// Consume input up to absolute position `used`, appending `out` to
    /// the output.  The run stops (cleanly) instead if `out` does not fit
    /// in the remaining output capacity.
    Put { used: int, out: Seq<u8> },
    /// Stop cleanly: the input is exhausted, the output is full, or a
    /// truncated sequence at the end of the input waits for the next
    /// chunk.
    Stop,
    /// Report an error spanning `span` input bytes from the current
    /// position.
    Fail { span: int },
}

/// The outcome of running a codec over an input: the bytes emitted, the
/// final consumed position, and the error span, if the run ended in one.
///
/// When `err` is `Some(span)`, the error covers input bytes
/// `[used, used + span)` and `out` holds everything emitted before it.
pub struct Run {
    pub out: Seq<u8>,
    pub used: int,
    pub err: Option<int>,
}

impl Run {
    /// A run that stopped cleanly at position `i` without emitting.
    pub open spec fn stop(i: int) -> Run {
        Run { out: seq![], used: i, err: None }
    }

    /// A run that failed at position `i` with the given span.
    pub open spec fn fail(i: int, span: int) -> Run {
        Run { out: seq![], used: i, err: Some(span) }
    }

    /// The run `rest`, with `emitted` prepended to its output.
    pub open spec fn after(emitted: Seq<u8>, rest: Run) -> Run {
        Run { out: emitted + rest.out, used: rest.used, err: rest.err }
    }
}

/// One emitting step advances a codec loop's bookkeeping.
///
/// `prev` and `cur` are the output buffer before and after the step
/// wrote `emitted` at position `output_i`, `orig` is the buffer the
/// caller supplied, and `whole`, `rest` and `next` are the codec's runs
/// from the start, from the step's position, and from the position the
/// step consumed to.  The step extends the written prefix and keeps the
/// composition of prefix and remaining run intact.
pub proof fn lemma_run_advance(
    cap0: int,
    output_i: int,
    l: int,
    emitted: Seq<u8>,
    prev: Seq<u8>,
    cur: Seq<u8>,
    orig: Seq<u8>,
    whole: Run,
    rest: Run,
    next: Run,
)
    requires
        0 <= output_i,
        output_i + l <= cap0,
        l == emitted.len(),
        prev.len() == cap0,
        cur.len() == cap0,
        orig.len() == cap0,
        forall|j: int| 0 <= j < cap0 && !(output_i <= j < output_i + l) ==> cur[j] == prev[j],
        forall|k: int| 0 <= k < l ==> cur[output_i + k] == emitted[k],
        prev.subrange(output_i, cap0) == orig.subrange(output_i, cap0),
        whole.out == prev.subrange(0, output_i) + rest.out,
        whole.used == rest.used,
        whole.err == rest.err,
        rest == Run::after(emitted, next),
    ensures
        cur.subrange(0, output_i) == prev.subrange(0, output_i),
        cur.subrange(0, output_i + l) == prev.subrange(0, output_i) + emitted,
        cur.subrange(output_i + l, cap0) == orig.subrange(output_i + l, cap0),
        whole.out == cur.subrange(0, output_i + l) + next.out,
        whole.used == next.used,
        whole.err == next.err,
{
    assert(cur.subrange(0, output_i) =~= prev.subrange(0, output_i));
    assert forall|j: int| output_i <= j < cap0 implies prev[j] == orig[j] by {
        let sp = prev.subrange(output_i, cap0);
        let so = orig.subrange(output_i, cap0);
        assert(sp[j - output_i] == prev[j]);
        assert(so[j - output_i] == orig[j]);
    }
    assert(cur.subrange(output_i + l, cap0) =~= orig.subrange(output_i + l, cap0));
    assert(cur.subrange(0, output_i + l) =~= cur.subrange(0, output_i) + emitted);
    assert(whole.out =~= cur.subrange(0, output_i + l) + next.out);
}

} // verus!
