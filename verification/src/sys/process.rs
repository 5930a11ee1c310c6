//! Subprocess call specifications, bounded output capture and outcome reporting.
//!
//! A call site declares the program, its separate arguments, the streams to
//! capture, the acceptable exit codes and its timeouts. Captured output keeps
//! only a bounded head and tail so large output can neither exhaust memory nor
//! block the child on a full pipe. Environment values are passed to the child
//! only and never appear in reports.
use vstd::prelude::*;

use crate::text::{append_str, decimal, owned, u64_decimal};

verus! {

#[verifier::external_type_specification]
#[verifier::external_body]
pub struct ExIoError(std::io::Error);

/// Default total bytes kept per stream, split evenly between head and tail.
pub const DEFAULT_OUTPUT_CAPACITY_BYTES: usize = 32768;
/// Default deadline, in seconds, for the output drain once the child exits.
pub const DEFAULT_DRAIN_TIMEOUT_SECS: u64 = 2;

/// The `Duration` of `secs` whole seconds.
pub uninterp spec fn duration_from_secs(secs: u64) -> std::time::Duration;

/// `Duration::from_secs`.
#[verifier::external_body]
pub fn duration_secs(secs: u64) -> (d: std::time::Duration)
    ensures
        d == duration_from_secs(secs),
{
    std::time::Duration::from_secs(secs)
}

#[derive(Clone, Copy, Debug, PartialEq, Eq)]
pub enum OutputStream {
    Stdout,
    Stderr,
}

impl OutputStream {
    pub open spec fn spec_name(self) -> Seq<char> {
        match self {
            OutputStream::Stdout => "stdout"@,
            OutputStream::Stderr => "stderr"@,
        }
    }

    /// The stream's name.
    pub fn name(self) -> (r: &'static str)
        ensures
            r@ == self.spec_name(),
    {
        match self {
            OutputStream::Stdout => "stdout",
            OutputStream::Stderr => "stderr",
        }
    }
}

/// A child's exit: its exit code, or the signal that terminated it.
#[derive(Clone, Copy, Debug, PartialEq, Eq, Structural)]
pub enum ExitStatus {
    Exited(i32),
    Signaled(i32),
}

/// Decimal text of a signed integer.
pub open spec fn signed_decimal(v: int) -> Seq<char> {
    if v < 0 {
        seq!['-'] + decimal((-v) as nat)
    } else {
        decimal(v as nat)
    }
}

fn i32_decimal(v: i32) -> (r: String)
    ensures
        r@ == signed_decimal(v as int),
{
    if v < 0 {
        let magnitude: u64 = (-(v as i64)) as u64;
        let mut r = owned("-");
        let digits = u64_decimal(magnitude);
        append_str(&mut r, digits.as_str());
        proof {
            reveal_strlit("-");
        }
        r
    } else {
        u64_decimal(v as u64)
    }
}

impl ExitStatus {
    pub open spec fn spec_describe(self) -> Seq<char> {
        match self {
            ExitStatus::Exited(code) => "exit code "@ + signed_decimal(code as int),
            ExitStatus::Signaled(signal) => "signal "@ + signed_decimal(signal as int),
        }
    }

    /// "exit code N" or "signal N".
    pub fn describe(&self) -> (r: String)
        ensures
            r@ == self.spec_describe(),
    {
        match self {
            ExitStatus::Exited(code) => {
                let mut r = owned("exit code ");
                let n = i32_decimal(*code);
                append_str(&mut r, n.as_str());
                r
            },
            ExitStatus::Signaled(signal) => {
                let mut r = owned("signal ");
                let n = i32_decimal(*signal);
                append_str(&mut r, n.as_str());
                r
            },
        }
    }
}

/// Which of the child's output streams are captured.
#[derive(Clone, Copy, Debug, Default, PartialEq, Eq)]
pub enum CaptureMode {
    /// Nothing is captured; the streams go to the null device.
    #[default]
    Discard,
    Stdout,
    Stderr,
    Both,
}

impl CaptureMode {
    pub fn captures_stdout(self) -> (r: bool)
        ensures
            r == (self == CaptureMode::Stdout || self == CaptureMode::Both),
    {
        match self {
            CaptureMode::Stdout | CaptureMode::Both => true,
            _ => false,
        }
    }

    pub fn captures_stderr(self) -> (r: bool)
        ensures
            r == (self == CaptureMode::Stderr || self == CaptureMode::Both),
    {
        match self {
            CaptureMode::Stderr | CaptureMode::Both => true,
            _ => false,
        }
    }
}

/// The exit statuses a call site accepts.
#[derive(Clone, Copy, Debug, PartialEq, Eq)]
pub enum ExitPolicy {
    /// Exit code 0 only.
    Success,
    /// Only the listed exit codes, such as 0..=3 for `e2fsck`.
    Accepted(&'static [i32]),
    /// Any status; only a side-effect check is authoritative.
    Any,
}

impl ExitPolicy {
    pub open spec fn spec_accepts(self, status: ExitStatus) -> bool {
        match self {
            ExitPolicy::Success => status == ExitStatus::Exited(0),
            ExitPolicy::Accepted(codes) => match status {
                ExitStatus::Exited(code) => codes@.contains(code),
                ExitStatus::Signaled(_) => false,
            },
            ExitPolicy::Any => true,
        }
    }

    /// Whether `status` is acceptable under this policy.
    pub fn accepts(self, status: ExitStatus) -> (r: bool)
        ensures
            r == self.spec_accepts(status),
    {
        match self {
            ExitPolicy::Success => status == ExitStatus::Exited(0),
            ExitPolicy::Accepted(codes) => match status {
                ExitStatus::Exited(code) => {
                    let mut i: usize = 0;
                    while i < codes.len()
                        invariant
                            0 <= i <= codes@.len(),
                            self == ExitPolicy::Accepted(codes),
                            status == ExitStatus::Exited(code),
                            forall|k: int| 0 <= k < i ==> codes@[k] != code,
                        decreases codes@.len() - i,
                    {
                        if codes[i] == code {
                            assert(codes@[i as int] == code);
                            assert(codes@.contains(code));
                            return true;
                        }
                        i = i + 1;
                    }
                    false
                },
                ExitStatus::Signaled(_) => false,
            },
            ExitPolicy::Any => true,
        }
    }
}

/// `min(a, b)`.
pub open spec fn min_int(a: int, b: int) -> int {
    if a <= b { a } else { b }
}

/// `x` clamped to the `u64` range.
pub open spec fn sat64(x: int) -> u64 {
    if x > u64::MAX { u64::MAX } else if x < 0 { 0 } else { x as u64 }
}

/// `head`, `tail` and `omitted` are what a head/tail buffer with budgets `hb`
/// and `tb` keeps of `all`.
pub open spec fn capture_holds(
    head: Seq<u8>,
    tail: Seq<u8>,
    omitted: u64,
    hb: int,
    tb: int,
    all: Seq<u8>,
) -> bool {
    let h = min_int(all.len() as int, hb);
    let rest = all.skip(h);
    let t = min_int(rest.len() as int, tb);
    &&& head == all.take(h)
    &&& tail == rest.skip(rest.len() - t)
    &&& omitted == sat64(rest.len() - t)
}

/// What a capture holds depends only on the output pushed so far: since
/// `new` holds the empty output and every `push` of a chunk extends the
/// held output by that chunk, after any chain of pushes the head is the
/// first `hb` bytes of everything pushed, the tail the last `tb` bytes of
/// the rest, and the bytes between are counted, whatever the chunking was.
pub proof fn capture_depends_only_on_output(
    head1: Seq<u8>,
    tail1: Seq<u8>,
    omitted1: u64,
    head2: Seq<u8>,
    tail2: Seq<u8>,
    omitted2: u64,
    hb: int,
    tb: int,
    all: Seq<u8>,
)
    requires
        capture_holds(head1, tail1, omitted1, hb, tb, all),
        capture_holds(head2, tail2, omitted2, hb, tb, all),
    ensures
        head1 == head2,
        tail1 == tail2,
        omitted1 == omitted2,
{
}

proof fn lemma_fill_head(
    head: Seq<u8>,
    tail: Seq<u8>,
    omitted: u64,
    hb: int,
    tb: int,
    all: Seq<u8>,
    added: Seq<u8>,
)
    requires
        capture_holds(head, tail, omitted, hb, tb, all),
        head.len() < hb,
        head.len() + added.len() <= hb,
        tb >= 0,
    ensures
        capture_holds(head + added, tail, omitted, hb, tb, all + added),
{
    let all2 = all + added;
    assert(all.len() < hb);
    assert(all.take(all.len() as int) =~= all);
    assert(all.skip(all.len() as int) =~= Seq::<u8>::empty());
    assert(all2.take(all2.len() as int) =~= all2);
    assert(all2.skip(all2.len() as int) =~= Seq::<u8>::empty());
    assert(tail =~= Seq::<u8>::empty());
    assert(Seq::<u8>::empty().skip(0) =~= Seq::<u8>::empty());
}

proof fn lemma_tail_wide(
    head: Seq<u8>,
    tail: Seq<u8>,
    omitted: u64,
    hb: int,
    tb: int,
    all: Seq<u8>,
    rest: Seq<u8>,
)
    requires
        capture_holds(head, tail, omitted, hb, tb, all),
        head.len() == hb,
        hb >= 0,
        tb >= 0,
        rest.len() >= tb,
    ensures
        capture_holds(
            head,
            rest.skip(rest.len() - tb),
            sat64(sat64(omitted + tail.len()) + (rest.len() - tb)),
            hb,
            tb,
            all + rest,
        ),
{
    let all2 = all + rest;
    let h = min_int(all.len() as int, hb);
    assert(h == hb);
    let r1 = all.skip(h);
    let r2 = all2.skip(h);
    assert(r2 =~= r1 + rest);
    assert(all2.take(h) =~= all.take(h));
    let t = min_int(r1.len() as int, tb);
    assert(tail.len() == t);
    lemma_sat_nested(r1.len() - t, t);
    lemma_sat_nested(r1.len() as int, rest.len() - tb);
    assert(r2.skip(r2.len() - tb) =~= rest.skip(rest.len() - tb));
}

proof fn lemma_tail_narrow(
    head: Seq<u8>,
    tail: Seq<u8>,
    omitted: u64,
    hb: int,
    tb: int,
    all: Seq<u8>,
    rest: Seq<u8>,
    overflow: int,
)
    requires
        capture_holds(head, tail, omitted, hb, tb, all),
        head.len() == hb,
        hb >= 0,
        tb >= 0,
        rest.len() < tb,
        rest.len() > 0,
        overflow == if tail.len() + rest.len() > tb {
            tail.len() + rest.len() - tb
        } else {
            0
        },
    ensures
        tail.len() <= tb,
        0 <= overflow <= tail.len(),
        capture_holds(
            head,
            tail.skip(overflow) + rest,
            sat64(omitted + overflow),
            hb,
            tb,
            all + rest,
        ),
{
    let all2 = all + rest;
    let h = min_int(all.len() as int, hb);
    assert(h == hb);
    let r1 = all.skip(h);
    let r2 = all2.skip(h);
    assert(r2 =~= r1 + rest);
    assert(all2.take(h) =~= all.take(h));
    let t = min_int(r1.len() as int, tb);
    assert(tail.len() == t);
    let t2 = min_int(r2.len() as int, tb);
    if overflow == 0 {
        assert(t == r1.len());
        assert(t2 == r2.len());
        assert(tail =~= r1);
        assert(r2.skip(0) =~= r2);
        assert(tail.skip(0) + rest =~= r2);
    } else {
        assert(t2 == tb);
        assert(tail.skip(overflow) =~= r1.skip(r1.len() - t + overflow));
        assert(r2.skip(r2.len() - t2) =~= r1.skip(r1.len() - t + overflow) + rest);
        lemma_sat_nested(r1.len() - t, overflow);
    }
}

proof fn lemma_sat_nested(x: int, y: int)
    requires
        x >= 0,
        y >= 0,
    ensures
        sat64(sat64(x) + y) == sat64(x + y),
{
}

/// Bounded head + tail output buffer.
///
/// Keeps the first `head_budget` bytes and the last `tail_budget` bytes of
/// everything pushed, and counts the bytes in between as omitted.
pub struct OutputCapture {
    head: Vec<u8>,
    tail: Vec<u8>,
    omitted: u64,
    head_budget: usize,
    tail_budget: usize,
}

impl OutputCapture {
    pub closed spec fn spec_head(&self) -> Seq<u8> {
        self.head@
    }

    pub closed spec fn spec_tail(&self) -> Seq<u8> {
        self.tail@
    }

    pub closed spec fn spec_omitted(&self) -> u64 {
        self.omitted
    }

    pub closed spec fn spec_head_budget(&self) -> usize {
        self.head_budget
    }

    pub closed spec fn spec_tail_budget(&self) -> usize {
        self.tail_budget
    }

    /// The buffer is exactly what keeping the first `head_budget` and the last
    /// `tail_budget` bytes of `all` leaves, with the bytes between counted.
    pub open spec fn holds(&self, all: Seq<u8>) -> bool {
        capture_holds(
            self.spec_head(),
            self.spec_tail(),
            self.spec_omitted(),
            self.spec_head_budget() as int,
            self.spec_tail_budget() as int,
            all,
        )
    }

    /// An empty buffer keeping at most `max_bytes` bytes, half at each end.
    pub fn new(max_bytes: usize) -> (c: OutputCapture)
        ensures
            c.spec_head_budget() == max_bytes / 2,
            c.spec_tail_budget() == max_bytes - max_bytes / 2,
            c.holds(Seq::empty()),
    {
        let head_budget = max_bytes / 2;
        let tail_budget = max_bytes - head_budget;
        let c = OutputCapture {
            head: Vec::new(),
            tail: Vec::new(),
            omitted: 0,
            head_budget,
            tail_budget,
        };
        assert(Seq::<u8>::empty().take(0) =~= Seq::<u8>::empty());
        assert(Seq::<u8>::empty().skip(0) =~= Seq::<u8>::empty());
        c
    }

    /// Records the next chunk of output. Callers keep pushing once the buffer
    /// is full, so the child never blocks on a full pipe.
    pub fn push(&mut self, chunk: &[u8])
        ensures
            final(self).spec_head_budget() == old(self).spec_head_budget(),
            final(self).spec_tail_budget() == old(self).spec_tail_budget(),
            forall|all: Seq<u8>| old(self).holds(all) ==> #[trigger] final(self).holds(all + chunk@),
    {
        let ghost old_head = self.head@;
        let ghost old_tail = self.tail@;
        let ghost old_omitted = self.omitted;
        let ghost hb = self.head_budget as int;
        let ghost tb = self.tail_budget as int;
        let n = chunk.len();
        if n == 0 {
            proof {
                assert forall|all: Seq<u8>| old(self).holds(all) implies #[trigger] self.holds(
                    all + chunk@,
                ) by {
                    assert(all + chunk@ =~= all);
                }
            }
            return;
        }
        if self.head_budget == 0 && self.tail_budget == 0 {
            let add = n as u64;
            self.omitted = self.omitted.saturating_add(add);
            proof {
                assert forall|all: Seq<u8>| old(self).holds(all) implies #[trigger] self.holds(
                    all + chunk@,
                ) by {
                    let all2 = all + chunk@;
                    assert(all.skip(0) =~= all);
                    assert(all2.skip(0) =~= all2);
                    assert(all2.take(0) =~= all.take(0));
                    assert(all2.skip(0).skip(all2.len() as int) =~= all.skip(0).skip(
                        all.len() as int,
                    ));
                }
            }
            return;
        }
        let mut start: usize = 0;
        if self.head.len() < self.head_budget {
            let room = self.head_budget - self.head.len();
            let take = if room < n {
                room
            } else {
                n
            };
            while start < take
                invariant
                    0 <= start <= take <= n,
                    take <= room,
                    room == self.head_budget - old_head.len(),
                    n == chunk@.len(),
                    self.head@ == old_head + chunk@.subrange(0, start as int),
                    self.tail@ == old_tail,
                    self.omitted == old_omitted,
                    self.head_budget == old(self).head_budget,
                    self.tail_budget == old(self).tail_budget,
                decreases take - start,
            {
                self.head.push(chunk[start]);
                assert(chunk@.subrange(0, start + 1) =~= chunk@.subrange(0, start as int).push(
                    chunk@[start as int],
                ));
                start = start + 1;
            }
        }
        let ghost mid_head = self.head@;
        let ghost filled = chunk@.subrange(0, start as int);
        let ghost rest = chunk@.skip(start as int);
        proof {
            assert(filled + rest =~= chunk@);
            assert forall|all: Seq<u8>| old(self).holds(all) implies capture_holds(
                mid_head,
                old_tail,
                old_omitted,
                hb,
                tb,
                all + filled,
            ) by {
                if start > 0 {
                    lemma_fill_head(old_head, old_tail, old_omitted, hb, tb, all, filled);
                } else {
                    assert(all + filled =~= all);
                    assert(mid_head =~= old_head);
                }
            }
        }
        if start == n {
            proof {
                assert forall|all: Seq<u8>| old(self).holds(all) implies #[trigger] self.holds(
                    all + chunk@,
                ) by {
                    assert(filled =~= chunk@);
                }
            }
            return;
        }
        let rest_len = n - start;
        let tb_exec = self.tail_budget;
        if rest_len >= tb_exec {
            let add = self.tail.len() as u64;
            self.omitted = self.omitted.saturating_add(add);
            let ghost om1 = self.omitted;
            self.tail.clear();
            let skip_to = n - tb_exec;
            let mut k: usize = skip_to;
            while k < n
                invariant
                    start <= skip_to <= k <= n,
                    n == chunk@.len(),
                    skip_to == n - tb_exec,
                    tb_exec == self.tail_budget,
                    self.tail@ == chunk@.subrange(skip_to as int, k as int),
                    self.head@ == mid_head,
                    self.omitted == om1,
                    self.head_budget == old(self).head_budget,
                    self.tail_budget == old(self).tail_budget,
                decreases n - k,
            {
                self.tail.push(chunk[k]);
                assert(chunk@.subrange(skip_to as int, k + 1) =~= chunk@.subrange(
                    skip_to as int,
                    k as int,
                ).push(chunk@[k as int]));
                k = k + 1;
            }
            let dropped = (skip_to - start) as u64;
            self.omitted = self.omitted.saturating_add(dropped);
            proof {
                assert(rest.skip(rest.len() - tb) =~= self.tail@);
                assert forall|all: Seq<u8>| old(self).holds(all) implies #[trigger] self.holds(
                    all + chunk@,
                ) by {
                    assert(old_head.len() <= hb);
                    assert(mid_head.len() == hb);
                    lemma_tail_wide(mid_head, old_tail, old_omitted, hb, tb, all + filled, rest);
                    assert(all + filled + rest =~= all + chunk@);
                }
            }
        } else {
            let room = tb_exec - rest_len;
            let overflow = if self.tail.len() > room {
                self.tail.len() - room
            } else {
                0
            };
            if overflow > 0 && overflow <= self.tail.len() {
                let kept = self.tail.split_off(overflow);
                self.tail = kept;
                let add = overflow as u64;
                self.omitted = self.omitted.saturating_add(add);
            }
            let ghost kept_tail = self.tail@;
            let ghost om1 = self.omitted;
            let mut k: usize = start;
            while k < n
                invariant
                    start <= k <= n,
                    n == chunk@.len(),
                    self.tail@ == kept_tail + chunk@.subrange(start as int, k as int),
                    self.head@ == mid_head,
                    self.omitted == om1,
                    self.head_budget == old(self).head_budget,
                    self.tail_budget == old(self).tail_budget,
                decreases n - k,
            {
                self.tail.push(chunk[k]);
                assert(chunk@.subrange(start as int, k + 1) =~= chunk@.subrange(
                    start as int,
                    k as int,
                ).push(chunk@[k as int]));
                k = k + 1;
            }
            proof {
                assert(chunk@.subrange(start as int, n as int) =~= rest);
                assert forall|all: Seq<u8>| old(self).holds(all) implies #[trigger] self.holds(
                    all + chunk@,
                ) by {
                    let ov: int = if old_tail.len() + rest.len() > tb {
                        old_tail.len() + rest.len() - tb
                    } else {
                        0
                    };
                    assert(old_head.len() <= hb);
                    assert(mid_head.len() == hb);
                    lemma_tail_narrow(
                        mid_head,
                        old_tail,
                        old_omitted,
                        hb,
                        tb,
                        all + filled,
                        rest,
                        ov,
                    );
                    assert(overflow == ov);
                    if ov == 0 {
                        assert(old_tail.skip(0) =~= old_tail);
                    }
                    assert(all + filled + rest =~= all + chunk@);
                }
            }
        }
    }

    /// The first bytes kept.
    pub fn head(&self) -> (r: &[u8])
        ensures
            r@ == self.spec_head(),
    {
        self.head.as_slice()
    }

    /// The last bytes kept.
    pub fn tail(&self) -> (r: &[u8])
        ensures
            r@ == self.spec_tail(),
    {
        self.tail.as_slice()
    }

    /// How many bytes between head and tail were dropped.
    pub fn omitted_bytes(&self) -> (r: u64)
        ensures
            r == self.spec_omitted(),
    {
        self.omitted
    }

    /// Whether nothing was kept.
    pub fn is_empty(&self) -> (r: bool)
        ensures
            r == (self.spec_head().len() == 0 && self.spec_tail().len() == 0),
    {
        self.head.len() == 0 && self.tail.len() == 0
    }

    pub open spec fn spec_render(&self) -> Seq<char> {
        utf8_lossy(self.spec_head()) + (if self.spec_omitted() > 0 {
            "\n[... omitted "@ + decimal(self.spec_omitted() as nat) + " bytes ...]\n"@
        } else {
            Seq::empty()
        }) + utf8_lossy(self.spec_tail())
    }

    /// Text view for reports: head, an omission marker, then tail.
    pub fn render(&self) -> (text: String)
        ensures
            text@ == self.spec_render(),
    {
        let mut text = lossy_text(self.head.as_slice());
        if self.omitted > 0 {
            append_str(&mut text, "\n[... omitted ");
            let count = u64_decimal(self.omitted);
            append_str(&mut text, count.as_str());
            append_str(&mut text, " bytes ...]\n");
        } else {
            assert(text@ + Seq::<char>::empty() =~= text@);
        }
        let tail_text = lossy_text(self.tail.as_slice());
        append_str(&mut text, tail_text.as_str());
        text
    }
}

/// `b` is `a` after one push of `chunk`: same budgets, and it holds the output
/// of `a` followed by `chunk`.
pub open spec fn pushed(a: OutputCapture, b: OutputCapture, chunk: Seq<u8>) -> bool {
    &&& b.spec_head_budget() == a.spec_head_budget()
    &&& b.spec_tail_budget() == a.spec_tail_budget()
    &&& forall|all: Seq<u8>| a.holds(all) ==> #[trigger] b.holds(all + chunk)
}

/// A new capture of `max_bytes` after any number of pushes holds exactly the
/// first `max_bytes / 2` bytes of everything pushed, the last bytes of the
/// rest that fit the other half, and counts the bytes between.
pub proof fn capture_after_pushes(caps: Seq<OutputCapture>, chunks: Seq<Seq<u8>>, max_bytes: usize)
    requires
        caps.len() == chunks.len() + 1,
        caps[0].spec_head_budget() == max_bytes / 2,
        caps[0].spec_tail_budget() == max_bytes - max_bytes / 2,
        caps[0].holds(Seq::empty()),
        forall|i: int| #![trigger chunks[i]] 0 <= i < chunks.len() ==> pushed(caps[i], caps[i + 1], chunks[i]),
    ensures
        caps.last().spec_head_budget() == max_bytes / 2,
        caps.last().spec_tail_budget() == max_bytes - max_bytes / 2,
        caps.last().holds(chunks.flatten()),
    decreases chunks.len(),
{
    if chunks.len() == 0 {
        assert(chunks.flatten() =~= Seq::<u8>::empty());
    } else {
        let n = chunks.len() - 1;
        let front = chunks.drop_last();
        let caps_front = caps.drop_last();
        assert forall|i: int| #![trigger front[i]] 0 <= i < front.len() implies pushed(caps_front[i], caps_front[i + 1], front[i]) by {
            assert(front[i] == chunks[i]);
            assert(pushed(caps[i], caps[i + 1], chunks[i]));
        }
        capture_after_pushes(caps_front, front, max_bytes);
        assert(pushed(caps[n], caps[n + 1], chunks[n]));
        assert(caps_front.last() == caps[n]);
        assert(caps[n].holds(front.flatten()));
        assert(caps[n + 1].holds(front.flatten() + chunks[n]));
        front.lemma_flatten_push(chunks[n]);
        assert(front.push(chunks[n]) =~= chunks);
    }
}

/// The text `String::from_utf8_lossy` makes of `bytes`.
pub uninterp spec fn utf8_lossy(bytes: Seq<u8>) -> Seq<char>;

/// `String::from_utf8_lossy`: invalid sequences become U+FFFD.
#[verifier::external_body]
pub fn lossy_text(bytes: &[u8]) -> (text: String)
    ensures
        text@ == utf8_lossy(bytes@),
{
    String::from_utf8_lossy(bytes).into_owned()
}

/// Everything needed for one subprocess call.
pub struct CommandSpec {
    pub operation: &'static str,
    pub program: String,
    pub args: Vec<String>,
    pub cwd: Option<String>,
    pub envs: Vec<(String, String)>,
    pub timeout: Option<std::time::Duration>,
    pub drain_timeout: std::time::Duration,
    pub capture: CaptureMode,
    pub max_output_bytes: usize,
    pub exit_policy: ExitPolicy,
}

impl CommandSpec {
    /// A call of `program` with no arguments, no capture, no timeout and the
    /// exit policy `Success`.
    pub fn new(program: &str) -> (spec: CommandSpec)
        ensures
            spec.operation@ == "run subprocess"@,
            spec.program@ == program@,
            spec.args@.len() == 0,
            spec.cwd is None,
            spec.envs@.len() == 0,
            spec.timeout is None,
            spec.drain_timeout == duration_from_secs(DEFAULT_DRAIN_TIMEOUT_SECS),
            spec.capture == CaptureMode::Discard,
            spec.max_output_bytes == DEFAULT_OUTPUT_CAPACITY_BYTES,
            spec.exit_policy == ExitPolicy::Success,
    {
        CommandSpec {
            operation: "run subprocess",
            program: owned(program),
            args: Vec::new(),
            cwd: None,
            envs: Vec::new(),
            timeout: None,
            drain_timeout: duration_secs(DEFAULT_DRAIN_TIMEOUT_SECS),
            capture: CaptureMode::Discard,
            max_output_bytes: DEFAULT_OUTPUT_CAPACITY_BYTES,
            exit_policy: ExitPolicy::Success,
        }
    }

    /// Names the operation in reports.
    pub fn operation(self, operation: &'static str) -> (spec: CommandSpec)
        ensures
            spec == (CommandSpec { operation, ..self }),
    {
        CommandSpec { operation, ..self }
    }

    /// Appends one argument.
    pub fn arg(self, arg: &str) -> (spec: CommandSpec)
        ensures
            spec.args@.map_values(|a: String| a@) == self.args@.map_values(|a: String| a@).push(
                arg@,
            ),
            spec == (CommandSpec { args: spec.args, ..self }),
    {
        let mut s = self;
        let ghost before = s.args@;
        s.args.push(owned(arg));
        assert(s.args@.map_values(|a: String| a@) =~= before.map_values(|a: String| a@).push(
            arg@,
        ));
        s
    }

    /// Appends arguments in order.
    pub fn args(self, args: Vec<String>) -> (spec: CommandSpec)
        ensures
            spec.args@ == self.args@ + args@,
            spec == (CommandSpec { args: spec.args, ..self }),
    {
        let mut s = self;
        let ghost before = s.args@;
        let mut i: usize = 0;
        while i < args.len()
            invariant
                0 <= i <= args@.len(),
                s.args@ == before + args@.subrange(0, i as int),
                s == (CommandSpec { args: s.args, ..self }),
            decreases args@.len() - i,
        {
            s.args.push(args[i].clone());
            assert(s.args@ =~= before + args@.subrange(0, i + 1));
            i = i + 1;
        }
        assert(args@.subrange(0, args@.len() as int) =~= args@);
        s
    }

    /// Adds one environment variable for the child.
    pub fn env(self, key: &str, value: &str) -> (spec: CommandSpec)
        ensures
            spec.envs@.len() == self.envs@.len() + 1,
            forall|i: int| 0 <= i < self.envs@.len() ==> spec.envs@[i] == self.envs@[i],
            spec.envs@.last().0@ == key@,
            spec.envs@.last().1@ == value@,
            spec == (CommandSpec { envs: spec.envs, ..self }),
    {
        let mut s = self;
        s.envs.push((owned(key), owned(value)));
        s
    }

    /// Sets the total timeout.
    pub fn timeout(self, timeout: std::time::Duration) -> (spec: CommandSpec)
        ensures
            spec == (CommandSpec { timeout: Some(timeout), ..self }),
    {
        CommandSpec { timeout: Some(timeout), ..self }
    }

    /// Chooses the captured streams.
    pub fn capture(self, capture: CaptureMode) -> (spec: CommandSpec)
        ensures
            spec == (CommandSpec { capture, ..self }),
    {
        CommandSpec { capture, ..self }
    }

    /// Chooses the acceptable exit statuses.
    pub fn exit_policy(self, policy: ExitPolicy) -> (spec: CommandSpec)
        ensures
            spec == (CommandSpec { exit_policy: policy, ..self }),
    {
        CommandSpec { exit_policy: policy, ..self }
    }

    /// Accepts exactly the listed exit codes.
    pub fn accepted_exit_codes(self, codes: &'static [i32]) -> (spec: CommandSpec)
        ensures
            spec == (CommandSpec { exit_policy: ExitPolicy::Accepted(codes), ..self }),
    {
        self.exit_policy(ExitPolicy::Accepted(codes))
    }

    /// Accepts any exit status.
    pub fn any_exit_status(self) -> (spec: CommandSpec)
        ensures
            spec == (CommandSpec { exit_policy: ExitPolicy::Any, ..self }),
    {
        self.exit_policy(ExitPolicy::Any)
    }

    /// A diagnostic summary that names environment keys but never their values.
    pub fn debug_summary(&self) -> (text: String)
        ensures
            forall|i: int|
                0 <= i < self.envs@.len() ==> has_infix(
                    text@,
                    self.envs@[i].0@ + "=<redacted>"@,
                ),
    {
        let mut text = owned("CommandSpec { operation: ");
        append_str(&mut text, self.operation);
        append_str(&mut text, ", program: ");
        append_str(&mut text, self.program.as_str());
        append_str(&mut text, ", args: [");
        let mut i: usize = 0;
        while i < self.args.len()
            invariant
                0 <= i <= self.args@.len(),
            decreases self.args@.len() - i,
        {
            if i > 0 {
                append_str(&mut text, ", ");
            }
            append_str(&mut text, self.args[i].as_str());
            i = i + 1;
        }
        append_str(&mut text, "], envs: [");
        let mut j: usize = 0;
        while j < self.envs.len()
            invariant
                0 <= j <= self.envs@.len(),
                forall|k: int|
                    0 <= k < j ==> has_infix(text@, self.envs@[k].0@ + "=<redacted>"@),
            decreases self.envs@.len() - j,
        {
            let ghost prev = text@;
            let sep = if j > 0 {
                ", "
            } else {
                ""
            };
            append_str(&mut text, sep);
            let ghost with_sep = text@;
            append_str(&mut text, self.envs[j].0.as_str());
            append_str(&mut text, "=<redacted>");
            proof {
                let entry = self.envs@[j as int].0@ + "=<redacted>"@;
                assert(text@ =~= with_sep + entry);
                assert(text@ =~= prev + (sep@ + entry));
                lemma_infix_of_concat(with_sep, entry);
                assert forall|k: int| 0 <= k <= j implies has_infix(
                    text@,
                    self.envs@[k].0@ + "=<redacted>"@,
                ) by {
                    if k < j {
                        lemma_infix_extends(prev, sep@ + entry, self.envs@[k].0@ + "=<redacted>"@);
                    }
                }
            }
            j = j + 1;
        }
        let ghost before_close = text@;
        append_str(&mut text, "] }");
        proof {
            assert forall|k: int| 0 <= k < self.envs@.len() implies has_infix(
                text@,
                self.envs@[k].0@ + "=<redacted>"@,
            ) by {
                lemma_infix_extends(before_close, "] }"@, self.envs@[k].0@ + "=<redacted>"@);
            }
        }
        text
    }
}

/// `needle` occurs somewhere in `hay`.
pub open spec fn has_infix(hay: Seq<char>, needle: Seq<char>) -> bool {
    exists|i: int|
        0 <= i && i + needle.len() <= hay.len() && #[trigger] hay.subrange(i, i + needle.len())
            == needle
}

proof fn lemma_infix_of_concat(prefix: Seq<char>, needle: Seq<char>)
    ensures
        has_infix(prefix + needle, needle),
{
    let hay = prefix + needle;
    assert(hay.subrange(prefix.len() as int, (prefix.len() + needle.len()) as int) =~= needle);
}

proof fn lemma_infix_extends(hay: Seq<char>, more: Seq<char>, needle: Seq<char>)
    requires
        has_infix(hay, needle),
    ensures
        has_infix(hay + more, needle),
{
    let i = choose|i: int|
        0 <= i && i + needle.len() <= hay.len() && #[trigger] hay.subrange(i, i + needle.len())
            == needle;
    assert((hay + more).subrange(i, i + needle.len()) =~= hay.subrange(i, i + needle.len()));
}

/// A finished call.
pub struct CommandOutcome {
    pub status: ExitStatus,
    pub stdout: Option<OutputCapture>,
    pub stderr: Option<OutputCapture>,
}

impl CommandOutcome {
    /// The rendered stdout capture, when stdout was captured.
    pub fn stdout_text(&self) -> (r: Option<String>)
        ensures
            r matches Some(t) ==> self.stdout matches Some(c) && t@ == c.spec_render(),
            r is None <==> self.stdout is None,
    {
        match &self.stdout {
            Some(c) => Some(c.render()),
            None => None,
        }
    }

    /// The rendered stderr capture, when stderr was captured.
    pub fn stderr_text(&self) -> (r: Option<String>)
        ensures
            r matches Some(t) ==> self.stderr matches Some(c) && t@ == c.spec_render(),
            r is None <==> self.stderr is None,
    {
        match &self.stderr {
            Some(c) => Some(c.render()),
            None => None,
        }
    }
}

/// A finished call whose status the policy rejected.
pub struct UnexpectedExit {
    pub status: ExitStatus,
    pub stdout: Option<OutputCapture>,
    pub stderr: Option<OutputCapture>,
}

impl UnexpectedExit {
    /// "unexpected <status>", followed by any captured stderr, then stdout.
    pub fn describe(&self) -> (text: String)
        ensures
            has_prefix_seq(text@, "unexpected "@ + self.status.spec_describe()),
    {
        let mut text = owned("unexpected ");
        let status = self.status.describe();
        append_str(&mut text, status.as_str());
        let ghost start = text@;
        if let Some(stderr) = &self.stderr {
            if !stderr.is_empty() {
                append_str(&mut text, "\nstderr:\n");
                let body = stderr.render();
                append_str(&mut text, body.as_str());
            }
        }
        if let Some(stdout) = &self.stdout {
            if !stdout.is_empty() {
                append_str(&mut text, "\nstdout:\n");
                let body = stdout.render();
                append_str(&mut text, body.as_str());
            }
        }
        assert(text@.subrange(0, start.len() as int) =~= start);
        text
    }
}

pub open spec fn has_prefix_seq(s: Seq<char>, p: Seq<char>) -> bool {
    p.len() <= s.len() && s.subrange(0, p.len() as int) == p
}

/// Why a call failed.
pub enum ProcessErrorKind {
    Spawn { source: std::io::Error },
    Wait { source: std::io::Error },
    /// Reading output failed, or the drain thread could not start.
    Reader { stream: OutputStream, source: std::io::Error },
    PipeMissing { stream: OutputStream },
    Timeout { limit: std::time::Duration },
    DrainTimeout { stream: OutputStream, limit: std::time::Duration },
    UnexpectedExit(Box<UnexpectedExit>),
}

/// What waiting for an output drain gave: its capture, the error its reader
/// hit (a drain that went away counts as one), or nothing before the deadline.
pub enum DrainReceipt {
    Captured(OutputCapture),
    ReadFailed(std::io::Error),
    TimedOut,
}

/// The outcome of draining `stream` with a deadline of `limit`: the capture,
/// a reader error, or a drain timeout naming the stream and the deadline.
pub fn settle_drain(receipt: DrainReceipt, stream: OutputStream, limit: std::time::Duration) -> (r: Result<
    Option<OutputCapture>,
    ProcessErrorKind,
>)
    ensures
        match receipt {
            DrainReceipt::Captured(c) => r == Ok::<Option<OutputCapture>, ProcessErrorKind>(Some(c)),
            DrainReceipt::ReadFailed(source) => r == Err::<Option<OutputCapture>, ProcessErrorKind>(
                ProcessErrorKind::Reader { stream, source },
            ),
            DrainReceipt::TimedOut => r == Err::<Option<OutputCapture>, ProcessErrorKind>(
                ProcessErrorKind::DrainTimeout { stream, limit },
            ),
        },
{
    match receipt {
        DrainReceipt::Captured(capture) => Ok(Some(capture)),
        DrainReceipt::ReadFailed(source) => Err(ProcessErrorKind::Reader { stream, source }),
        DrainReceipt::TimedOut => Err(ProcessErrorKind::DrainTimeout { stream, limit }),
    }
}

/// A failed call together with what was run.
pub struct ProcessError {
    pub operation: &'static str,
    pub program: String,
    pub args: Vec<String>,
    pub cwd: Option<String>,
    pub kind: ProcessErrorKind,
}

/// Builds the error for `spec` failing with `kind`.
pub fn process_error(spec: &CommandSpec, kind: ProcessErrorKind) -> (e: ProcessError)
    ensures
        e.operation == spec.operation,
        e.program@ == spec.program@,
        e.args@ == spec.args@,
        e.cwd == spec.cwd,
        e.kind == kind,
{
    ProcessError {
        operation: spec.operation,
        program: spec.program.clone(),
        args: spec.args.clone(),
        cwd: match &spec.cwd {
            Some(c) => Some(c.clone()),
            None => None,
        },
        kind,
    }
}

/// Settles a call that ran to completion: the outcome when the policy of
/// `spec` accepts `status`, otherwise an unexpected-exit error that keeps
/// the captured output.
pub fn settle_command(
    spec: &CommandSpec,
    status: ExitStatus,
    stdout: Option<OutputCapture>,
    stderr: Option<OutputCapture>,
) -> (r: Result<CommandOutcome, ProcessError>)
    ensures
        spec.exit_policy.spec_accepts(status) ==> (r matches Ok(o) && o.status == status && o.stdout == stdout
            && o.stderr == stderr),
        !spec.exit_policy.spec_accepts(status) ==> (r matches Err(e) && e.operation == spec.operation
            && e.program@ == spec.program@ && e.args@ == spec.args@ && e.cwd == spec.cwd
            && (e.kind matches ProcessErrorKind::UnexpectedExit(x) && x.status == status && x.stdout == stdout
            && x.stderr == stderr)),
{
    if spec.exit_policy.accepts(status) {
        Ok(CommandOutcome { status, stdout, stderr })
    } else {
        Err(process_error(spec, ProcessErrorKind::UnexpectedExit(Box::new(UnexpectedExit { status, stdout, stderr }))))
    }
}

/// The captures of both output streams, or the first stream's failure.
pub fn join_drains(
    stdout: Result<Option<OutputCapture>, ProcessErrorKind>,
    stderr: Result<Option<OutputCapture>, ProcessErrorKind>,
) -> (r: Result<(Option<OutputCapture>, Option<OutputCapture>), ProcessErrorKind>)
    ensures
        match (stdout, stderr) {
            (Ok(a), Ok(b)) => r == Ok::<(Option<OutputCapture>, Option<OutputCapture>), ProcessErrorKind>((a, b)),
            (Err(k), _) => r == Err::<(Option<OutputCapture>, Option<OutputCapture>), ProcessErrorKind>(k),
            (Ok(_), Err(k)) => r == Err::<(Option<OutputCapture>, Option<OutputCapture>), ProcessErrorKind>(k),
        },
{
    match (stdout, stderr) {
        (Ok(a), Ok(b)) => Ok((a, b)),
        (Err(k), _) => Err(k),
        (Ok(_), Err(k)) => Err(k),
    }
}

} // verus!
