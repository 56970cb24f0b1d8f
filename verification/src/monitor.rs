//! The change detector: per-process monitor state that decides, from the
//! OS sequence counter and a snapshot's signature, whether a clipboard
//! change is new; and the bounded retry schedule of the resource guard.

use vstd::prelude::*;
use vstd::string::*;
use crate::snapshot::{signature_spec, ClipboardSnapshot};
use crate::text::str_eq;
use crate::ClipboardError;

verus! {

/// How often the poll loop samples the clipboard sequence counter, in
/// milliseconds.
pub const POLL_INTERVAL_MS: u64 = 320;

/// How many times the resource guard attempts to open the clipboard.
pub const MAX_ACQUIRE_ATTEMPTS: u32 = 5;

/// The pause between two acquisition attempts, in milliseconds.
pub const ACQUIRE_BACKOFF_MS: u64 = 30;

/// The sequence-counter transition of one tick: the counter fires when it
/// is supported (non-zero) and differs from the last observed value, and
/// is then stored at once.
pub open spec fn sequence_step(last: u32, current: u32) -> (u32, bool) {
    if current != 0 && current != last {
        (current, true)
    } else {
        (last, false)
    }
}

/// The signature transition of one accepted extraction: a snapshot is
/// accepted when its signature differs from the last accepted one, and
/// its signature is stored either way.
pub open spec fn signature_step(last: Seq<char>, sig: Seq<char>) -> (Seq<char>, bool) {
    (sig, last != sig)
}

/// Without an intervening counter change, a second tick that sees the same
/// counter value never fires: at most one extraction per change.
pub proof fn lemma_sequence_dedup(last: u32, current: u32)
    ensures
        !sequence_step(sequence_step(last, current).0, current).1,
{
}

/// A second snapshot with an unchanged signature is never accepted: at
/// most one accepted snapshot per content.
pub proof fn lemma_signature_dedup(last: Seq<char>, sig: Seq<char>)
    ensures
        !signature_step(signature_step(last, sig).0, sig).1,
{
}

/// One whole tick at spec level: the counter decides whether to extract,
/// and only an extracted snapshot with a new signature is accepted.  The
/// result is the next state and whether this tick accepted a snapshot.
pub open spec fn tick_step(last_seq: u32, last_sig: Seq<char>, current: u32, sig: Seq<char>) -> (
    u32,
    Seq<char>,
    bool,
) {
    let stepped = sequence_step(last_seq, current);
    if stepped.1 {
        let accepted = signature_step(last_sig, sig);
        (stepped.0, accepted.0, accepted.1)
    } else {
        (stepped.0, last_sig, false)
    }
}

/// Law: two ticks that see the same counter value and the same content
/// accept at most one snapshot — the second tick never does, whether the
/// first extracted or not.
pub proof fn lemma_tick_dedup(last_seq: u32, last_sig: Seq<char>, current: u32, sig: Seq<char>)
    ensures
        ({
            let first = tick_step(last_seq, last_sig, current, sig);
            !tick_step(first.0, first.1, current, sig).2
        }),
{
}

/// The per-process monitor state: the last observed sequence counter and
/// the signature of the last accepted snapshot.
pub struct ClipboardMonitor {
    /// The last observed OS clipboard sequence counter; 0 before any tick.
    pub last_sequence: u32,
    /// The signature of the last accepted snapshot; empty before any.
    pub last_signature: String,
}

impl ClipboardMonitor {
    /// A monitor that has observed nothing yet.
    pub fn new() -> (r: Self)
        ensures
            r.last_sequence == 0,
            r.last_signature@ == Seq::<char>::empty(),
    {
        ClipboardMonitor { last_sequence: 0, last_signature: String::new() }
    }

    /// One tick's look at the OS sequence counter: returns whether the
    /// clipboard should be read, updating the stored counter first.
    pub fn observe_sequence(&mut self, current: u32) -> (r: bool)
        ensures
            (final(self).last_sequence, r) == sequence_step(old(self).last_sequence, current),
            final(self).last_signature@ == old(self).last_signature@,
    {
        if current != 0 && current != self.last_sequence {
            self.last_sequence = current;
            true
        } else {
            false
        }
    }

    /// Decides whether an extracted snapshot is new content: accepted
    /// exactly when its signature differs from the last accepted one.
    pub fn accept_snapshot(&mut self, snapshot: &ClipboardSnapshot) -> (r: bool)
        ensures
            (final(self).last_signature@, r) == signature_step(
                old(self).last_signature@,
                signature_spec(snapshot.content_type@, snapshot.content@),
            ),
            final(self).last_sequence == old(self).last_sequence,
    {
        let sig = snapshot.signature();
        if str_eq(sig.as_str(), self.last_signature.as_str()) {
            false
        } else {
            self.last_signature = sig;
            true
        }
    }

    /// The wait before the next acquisition attempt of the resource guard,
    /// or `None` when the bounded attempts are exhausted and acquisition
    /// fails with [`ClipboardError::ResourceUnavailable`].
    pub fn acquire_backoff(attempt: u32) -> (r: Option<u64>)
        ensures
            r == if attempt < MAX_ACQUIRE_ATTEMPTS - 1 {
                Some(ACQUIRE_BACKOFF_MS)
            } else {
                None::<u64>
            },
    {
        if attempt < MAX_ACQUIRE_ATTEMPTS - 1 {
            Some(ACQUIRE_BACKOFF_MS)
        } else {
            None
        }
    }

    /// The UTF-16 units a character contributes to the writer's native
    /// buffer: itself, or a surrogate pair beyond the basic plane.
    pub open spec fn utf16_units_of_char(c: char) -> Seq<u16> {
        if (c as int) < 0x10000 {
            seq![c as u16]
        } else {
            seq![
                (0xD800 + ((c as int - 0x10000) / 0x400)) as u16,
                (0xDC00 + ((c as int - 0x10000) % 0x400)) as u16,
            ]
        }
    }

    /// The UTF-16 encoding of a text.
    pub open spec fn utf16_spec(s: Seq<char>) -> Seq<u16>
        decreases s.len(),
    {
        if s.len() == 0 {
            Seq::empty()
        } else {
            Self::utf16_spec(s.drop_last()) + Self::utf16_units_of_char(s.last())
        }
    }

    /// The writer's native buffer content: the text encoded as UTF-16,
    /// with the terminating zero unit.
    pub fn utf16_with_terminator(text: &str) -> (r: Vec<u16>)
        ensures
            r@ == Self::utf16_spec(text@) + seq![0u16],
    {
        let n = text.unicode_len();
        let mut out: Vec<u16> = Vec::new();
        let mut i: usize = 0;
        proof {
            assert(out@ =~= Self::utf16_spec(text@.take(0)));
        }
        while i < n
            invariant
                i <= n,
                n == text@.len(),
                out@ == Self::utf16_spec(text@.take(i as int)),
            decreases n - i,
        {
            let c = text.get_char(i);
            let u = c as u32;
            proof {
                assert(text@.take(i as int + 1).drop_last() =~= text@.take(i as int));
                assert(text@.take(i as int + 1).last() == text@[i as int]);
            }
            if u < 0x10000 {
                out.push(u as u16);
                proof {
                    assert(out@ =~= Self::utf16_spec(text@.take(i as int))
                        + Self::utf16_units_of_char(text@[i as int]));
                }
            } else {
                let v = u - 0x10000;
                out.push((0xD800 + v / 0x400) as u16);
                out.push((0xDC00 + v % 0x400) as u16);
                proof {
                    assert(out@ =~= Self::utf16_spec(text@.take(i as int))
                        + Self::utf16_units_of_char(text@[i as int]));
                }
            }
            i = i + 1;
        }
        proof {
            assert(text@.take(n as int) =~= text@);
        }
        out.push(0);
        out
    }

    /// Writing to the clipboard is done by the platform layer; on a build
    /// without one, the writer reports the failure it cannot recover from.
    pub fn set_clipboard_text(_text: &str) -> (r: Result<(), ClipboardError>)
        ensures
            r == Err::<(), ClipboardError>(ClipboardError::WriteFailed),
    {
        Err(ClipboardError::WriteFailed)
    }

    /// Image capture is not implemented: there is never an image snapshot.
    pub fn get_clipboard_image() -> (r: Result<Option<String>, ClipboardError>)
        ensures
            r matches Ok(o) && o is None,
    {
        Ok(None)
    }
}

} // verus!
