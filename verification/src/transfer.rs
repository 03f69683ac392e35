//! Per-file transfer decisions and the bookkeeping the worker pool relies
//! on: the size-diff policy, the shared work list drained exactly once,
//! the monotone progress counter, the chunk-size knob, and the parsing of
//! a remote size probe's textual answer.
use vstd::prelude::*;

use crate::catalog::SourceFile;

verus! {

/// The outcome of probing the remote side for a file's size.
#[derive(Debug, Clone, Copy, PartialEq, Eq, Structural)]
pub enum SizeProbe {
    /// The probe succeeded and reported this size.
    Size(u64),
    /// The probe succeeded and the path is absent.
    NotFound,
    /// The probe itself failed (for example, a transport fault).
    Failed,
}

/// The size a probe outcome stands for under the fail-open policy:
/// anything but a successful report counts as size zero, so that an
/// inconclusive probe leads to a (possibly redundant) transfer, never to
/// skipped work.
pub open spec fn effective_probe_size(probe: SizeProbe) -> u64 {
    match probe {
        SizeProbe::Size(s) => s,
        SizeProbe::NotFound => 0u64,
        SizeProbe::Failed => 0u64,
    }
}

/// Whether a file must be transferred: always when the destination root
/// was just created (nothing under it can exist), otherwise exactly when
/// the probed size differs from the local size. Equal sizes mean skip;
/// this is a deliberate size-only heuristic and does not detect content
/// changes that preserve size.
pub open spec fn spec_should_transfer(local_size: u64, probe: SizeProbe, root_is_missing: bool) -> bool {
    root_is_missing || effective_probe_size(probe) != local_size
}

/// Decides transfer-or-skip for one file.
pub fn should_transfer(local_size: u64, probe: SizeProbe, root_is_missing: bool) -> (r: bool)
    ensures
        r == spec_should_transfer(local_size, probe, root_is_missing),
{
    if root_is_missing {
        true
    } else {
        let remote = match probe {
            SizeProbe::Size(s) => s,
            SizeProbe::NotFound => 0,
            SizeProbe::Failed => 0,
        };
        remote != local_size
    }
}

/// A file is skipped precisely when the probe succeeded, reported a size
/// exactly equal to the local size, and the destination root already
/// existed. (For a zero-byte file an inconclusive probe also leads to a
/// skip, because the fail-open size of zero happens to match; such files
/// are excluded here.)
pub proof fn lemma_skip_iff_remote_size_matches(
    local_size: u64,
    probe: SizeProbe,
    root_is_missing: bool,
)
    requires
        local_size != 0,
    ensures
        !spec_should_transfer(local_size, probe, root_is_missing) <==> (probe
            == SizeProbe::Size(local_size) && !root_is_missing),
{
}

/// Upload chunk-size bound in bytes; a pure throughput tuning knob.
pub const CHUNK_LIMIT: u64 = 5 * 1024 * 1024;

/// The buffer size used to stream one file: large files are read in
/// bounded chunks, small files in one piece of exactly their own size.
pub fn chunk_size_for(file_size: u64) -> (r: u64)
    ensures
        r == if file_size > CHUNK_LIMIT {
            CHUNK_LIMIT
        } else {
            file_size
        },
        r <= file_size,
{
    if file_size > CHUNK_LIMIT {
        CHUNK_LIMIT
    } else {
        file_size
    }
}

/// The shared work list the workers drain. Items leave through `pop`
/// alone, so each seeded file is handed out exactly once; the caller
/// guards the queue with exclusive access while popping.
pub struct WorkQueue {
    /// The files not yet handed to any worker.
    pub items: Vec<SourceFile>,
}

impl WorkQueue {
    /// Seeds the queue with every file the catalog produced.
    pub fn new(files: Vec<SourceFile>) -> (r: WorkQueue)
        ensures
            r.items@ == files@,
    {
        WorkQueue { items: files }
    }

    /// Removes and returns one item, or reports the queue empty. The
    /// returned item is gone from the queue: nothing hands it out twice.
    pub fn pop(&mut self) -> (r: Option<SourceFile>)
        ensures
            old(self).items@.len() == 0 ==> r is None && final(self).items@ == old(self).items@,
            old(self).items@.len() > 0 ==> r == Some(old(self).items@.last())
                && final(self).items@ == old(self).items@.drop_last(),
    {
        self.items.pop()
    }

    /// How many items no worker has taken yet.
    pub fn remaining(&self) -> (r: usize)
        ensures
            r == self.items@.len(),
    {
        self.items.len()
    }
}

/// Pops until the queue is empty and returns everything popped: each
/// seeded file comes out exactly once — the drained sequence has the same
/// length and the same multiset of records as the seeded queue, with no
/// item duplicated and none lost.
pub fn drain(q: &mut WorkQueue) -> (r: Vec<SourceFile>)
    ensures
        final(q).items@.len() == 0,
        r@ == old(q).items@.reverse(),
        r@.len() == old(q).items@.len(),
        r@.to_multiset() == old(q).items@.to_multiset(),
{
    let ghost orig = q.items@;
    let mut out: Vec<SourceFile> = Vec::new();
    loop
        invariant
            q.items@ == orig.take(orig.len() - out@.len()),
            out@.len() <= orig.len(),
            forall|j: int| 0 <= j < out@.len() ==> out@[j] == orig[orig.len() - 1 - j],
        ensures
            q.items@.len() == 0,
            out@.len() == orig.len(),
            forall|j: int| 0 <= j < out@.len() ==> out@[j] == orig[orig.len() - 1 - j],
        decreases q.items@.len(),
    {
        let ghost pre = q.items@;
        match q.pop() {
            None => {
                proof {
                    let k = orig.len() - out@.len();
                    assert(pre == orig.take(k));
                    assert(pre.len() == k);
                }
                break ;
            },
            Some(file) => {
                proof {
                    let k = orig.len() - out@.len();
                    assert(pre.len() == k) by {
                        assert(pre == orig.take(k));
                    }
                    assert(file == orig[k - 1]) by {
                        assert(pre.last() == orig.take(k)[k - 1]);
                    }
                    assert(q.items@ =~= orig.take(k - 1)) by {
                        assert(q.items@ == pre.drop_last());
                    }
                }
                out.push(file);
            },
        }
    }
    proof {
        assert(out@ =~= orig.reverse());
        orig.lemma_reverse_to_multiset();
    }
    out
}

/// The process-wide running total of bytes accounted for, whether a file
/// was skipped or transferred. It only ever grows.
pub struct ProgressCounter {
    /// Bytes accounted for so far.
    pub done: u64,
}

impl ProgressCounter {
    /// A fresh counter at zero.
    pub fn new() -> (r: ProgressCounter)
        ensures
            r.done == 0,
    {
        ProgressCounter { done: 0 }
    }

    /// Accounts for one file's bytes, exactly once per file, whatever the
    /// transfer outcome was. The total never decreases; it saturates at
    /// the largest representable value rather than wrapping.
    pub fn account(&mut self, bytes: u64)
        ensures
            final(self).done as int == if old(self).done + bytes <= u64::MAX as int {
                old(self).done + bytes
            } else {
                u64::MAX as int
            },
            final(self).done >= old(self).done,
    {
        self.done = self.done.saturating_add(bytes);
    }
}

/// One worker's handling of one popped file once its probe outcome is
/// known: decides transfer-or-skip by the size-diff policy and accounts
/// the file's bytes exactly once, whatever the decision was.
pub fn process_file(
    file: &SourceFile,
    probe: SizeProbe,
    root_is_missing: bool,
    progress: &mut ProgressCounter,
) -> (transfer: bool)
    ensures
        transfer == spec_should_transfer(file.size, probe, root_is_missing),
        final(progress).done as int == if old(progress).done + file.size <= u64::MAX as int {
            old(progress).done + file.size
        } else {
            u64::MAX as int
        },
        final(progress).done >= old(progress).done,
{
    let transfer = should_transfer(file.size, probe, root_is_missing);
    progress.account(file.size);
    transfer
}

/// A character the remote probe's textual answer may pad the number with.
pub open spec fn is_space(c: char) -> bool {
    c == ' ' || c == '\n' || c == '\t' || c == '\r'
}

/// A decimal digit.
pub open spec fn is_digit(c: char) -> bool {
    48 <= c as u32 <= 57
}

/// The numeric value of one decimal digit.
pub open spec fn digit_val(c: char) -> int {
    c as u32 - 48
}

/// The value of a string of decimal digits, most significant first.
pub open spec fn digits_value(s: Seq<char>) -> int
    decreases s.len(),
{
    if s.len() == 0 {
        0
    } else {
        digits_value(s.drop_last()) * 10 + digit_val(s.last())
    }
}

pub open spec fn trim_start(s: Seq<char>) -> Seq<char>
    decreases s.len(),
{
    if s.len() > 0 && is_space(s.first()) {
        trim_start(s.drop_first())
    } else {
        s
    }
}

pub open spec fn trim_end(s: Seq<char>) -> Seq<char>
    decreases s.len(),
{
    if s.len() > 0 && is_space(s.last()) {
        trim_end(s.drop_last())
    } else {
        s
    }
}

/// The string with padding characters removed from both ends.
pub open spec fn spec_trim(s: Seq<char>) -> Seq<char> {
    trim_end(trim_start(s))
}

proof fn lemma_trim_start_skip(s: Seq<char>, k: int)
    requires
        0 <= k <= s.len(),
        forall|j: int| 0 <= j < k ==> is_space(#[trigger] s[j]),
        k == s.len() || !is_space(s[k]),
    ensures
        trim_start(s) == s.skip(k),
    decreases k,
{
    if k == 0 {
        assert(s.skip(0) =~= s);
    } else {
        assert(is_space(s[0]));
        let t = s.drop_first();
        assert(forall|j: int| 0 <= j < k - 1 ==> is_space(#[trigger] t[j]));
        lemma_trim_start_skip(t, k - 1);
        assert(t.skip(k - 1) =~= s.skip(k));
    }
}

proof fn lemma_trim_end_take(s: Seq<char>, m: int)
    requires
        0 <= m <= s.len(),
        forall|j: int| m <= j < s.len() ==> is_space(#[trigger] s[j]),
        m == 0 || !is_space(s[m - 1]),
    ensures
        trim_end(s) == s.take(m),
    decreases s.len() - m,
{
    if m == s.len() {
        assert(s.take(m) =~= s);
    } else {
        assert(is_space(s.last()));
        let t = s.drop_last();
        lemma_trim_end_take(t, m);
        assert(t.take(m) =~= s.take(m));
    }
}

proof fn lemma_digits_value_nonneg(s: Seq<char>)
    requires
        forall|j: int| 0 <= j < s.len() ==> is_digit(#[trigger] s[j]),
    ensures
        digits_value(s) >= 0,
    decreases s.len(),
{
    if s.len() > 0 {
        lemma_digits_value_nonneg(s.drop_last());
    }
}

proof fn lemma_digits_value_prefix(s: Seq<char>, i: int)
    requires
        forall|j: int| 0 <= j < s.len() ==> is_digit(#[trigger] s[j]),
        0 <= i <= s.len(),
    ensures
        digits_value(s) >= digits_value(s.take(i)),
    decreases s.len() - i,
{
    if i == s.len() {
        assert(s.take(i) =~= s);
    } else {
        assert(s.take(i + 1).drop_last() =~= s.take(i));
        assert(forall|j: int| 0 <= j < i ==> is_digit(#[trigger] s.take(i)[j]));
        lemma_digits_value_nonneg(s.take(i));
        assert(digits_value(s.take(i + 1)) == digits_value(s.take(i)) * 10 + digit_val(
            s.take(i + 1).last(),
        ));
        lemma_digits_value_prefix(s, i + 1);
    }
}

fn space_at(s: &str, i: usize) -> (r: bool)
    requires
        i < s@.len(),
    ensures
        r == is_space(s@[i as int]),
{
    let c = s.get_char(i);
    c == ' ' || c == '\n' || c == '\t' || c == '\r'
}

/// Parses the textual answer of a remote size probe: the decimal number
/// it holds, once padding is trimmed from both ends. Anything else — an
/// empty answer, a non-digit, or a value too large to represent — yields
/// nothing, which the caller treats as a failed probe.
pub fn parse_remote_size(s: &str) -> (r: Option<u64>)
    ensures
        ({
            let t = spec_trim(s@);
            &&& r is Some <==> (t.len() > 0 && (forall|j: int|
                0 <= j < t.len() ==> is_digit(#[trigger] t[j])) && digits_value(t)
                <= u64::MAX as int)
            &&& (r matches Some(v) ==> v as int == digits_value(t))
        }),
{
    let n = s.unicode_len();
    let mut lo: usize = 0;
    while lo < n && space_at(s, lo)
        invariant
            0 <= lo <= n,
            n == s@.len(),
            forall|j: int| 0 <= j < lo ==> is_space(#[trigger] s@[j]),
        decreases n - lo,
    {
        lo += 1;
    }
    proof {
        lemma_trim_start_skip(s@, lo as int);
    }
    let mut hi: usize = n;
    while hi > lo && space_at(s, hi - 1)
        invariant
            lo <= hi <= n,
            n == s@.len(),
            forall|j: int| hi <= j < n ==> is_space(#[trigger] s@[j]),
        decreases hi,
    {
        hi -= 1;
    }
    let ghost t = spec_trim(s@);
    proof {
        let tail = s@.skip(lo as int);
        lemma_trim_end_take(tail, hi - lo);
        assert(t =~= s@.subrange(lo as int, hi as int));
    }
    if lo == hi {
        return None;
    }
    let mut acc: u64 = 0;
    let mut i: usize = lo;
    while i < hi
        invariant
            lo <= i <= hi <= n,
            n == s@.len(),
            lo < hi,
            t == spec_trim(s@),
            t == s@.subrange(lo as int, hi as int),
            forall|j: int| 0 <= j < i - lo ==> is_digit(#[trigger] t[j]),
            acc as int == digits_value(t.take(i - lo)),
        decreases hi - i,
    {
        let c = s.get_char(i);
        let u = c as u32;
        if u < 48 || u > 57 {
            proof {
                assert(t[i - lo] == s@[i as int]);
                assert(!(forall|j: int| 0 <= j < t.len() ==> is_digit(#[trigger] t[j]))) by {
                    assert(0 <= i - lo < t.len() && !is_digit(t[i - lo]));
                }
            }
            return None;
        }
        let d = (u - 48) as u64;
        proof {
            assert(t.take(i - lo + 1).drop_last() =~= t.take(i - lo));
            assert(t.take(i - lo + 1).last() == t[i - lo]);
            assert(t[i - lo] == s@[i as int]);
        }
        let stepped = match acc.checked_mul(10) {
            Some(m) => m.checked_add(d),
            None => None,
        };
        match stepped {
            Some(v) => {
                acc = v;
            },
            None => {
                proof {
                    let pre = i - lo + 1;
                    assert(digits_value(t.take(pre)) == acc * 10 + digit_val(t[i - lo]));
                    assert(digits_value(t.take(pre)) > u64::MAX as int);
                    if forall|j: int| 0 <= j < t.len() ==> is_digit(#[trigger] t[j]) {
                        lemma_digits_value_prefix(t, pre);
                        assert(digits_value(t) > u64::MAX as int);
                    }
                }
                return None;
            },
        }
        i += 1;
    }
    proof {
        assert(t.take(hi - lo) =~= t);
    }
    Some(acc)
}

} // verus!
