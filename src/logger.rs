//! The lockout log: an append-only, size-bounded log of unlock attempts from
//! which the ban state is derived, and the text form of its lines.

use vstd::prelude::*;

verus! {

/// How long a ban lasts, in milliseconds.
pub const BAN_TIME: u128 = 300000;

/// Consecutive failed attempts that start a ban.
pub const MAX_FAILS: usize = 5;

/// Most lines the log keeps; older ones are dropped first.
pub const MAX_LOGS: usize = 500;

/// The kind of a log line.
#[allow(non_camel_case_types)]
#[derive(Debug, Clone, Copy, PartialEq, Eq, Structural)]
pub enum LogType {
    ERROR,
    DEBUG,
    /// A ban that lasts until the given time, in milliseconds since the epoch.
    BAN(u128),
    /// A line that could not be read.
    INVALID,
    /// A successful attempt, or other information.
    INFO,
    /// A failed unlock attempt.
    LOGIN_FAILED,
}

/// One log line: when it was written, in milliseconds since the epoch, and its kind.
#[derive(Debug, Clone, Copy, PartialEq, Eq, Structural)]
pub struct LogEntry {
    pub time: u128,
    pub kind: LogType,
}

/// Why an attempt was refused.
#[derive(Debug, Clone, Copy, PartialEq, Eq, Structural)]
pub enum LockoutError {
    /// A ban is in force for the given number of milliseconds more.
    CurrentlyBanned(u128),
}

/// The log after rotation: at most the `MAX_LOGS` newest lines, in order.
pub open spec fn rotated(s: Seq<LogEntry>) -> Seq<LogEntry> {
    if s.len() > MAX_LOGS {
        s.subrange(s.len() - MAX_LOGS, s.len() as int)
    } else {
        s
    }
}

/// The number of failed attempts at the end of the log, up to the newest
/// line of another kind.
pub open spec fn failure_streak(s: Seq<LogEntry>) -> nat
    decreases s.len(),
{
    if s.len() == 0 {
        0
    } else if s.last().kind == LogType::LOGIN_FAILED {
        1 + failure_streak(s.drop_last())
    } else {
        0
    }
}

/// The end of the newest ban in the log, if any.
pub open spec fn last_ban(s: Seq<LogEntry>) -> Option<u128>
    decreases s.len(),
{
    if s.len() == 0 {
        None
    } else if let LogType::BAN(until) = s.last().kind {
        Some(until)
    } else {
        last_ban(s.drop_last())
    }
}

/// How long a line of kind `log` bans at time `now`: a ban until `until`
/// bans for `until - now` while `now < until`; nothing else bans.
pub open spec fn unban_wait(log: LogType, now: u128) -> Option<u128> {
    match log {
        LogType::BAN(until) => if now < until {
            Some((until - now) as u128)
        } else {
            None
        },
        _ => None,
    }
}

/// How long the newest ban of the log still lasts at time `now`, if it is in force.
pub open spec fn remaining(s: Seq<LogEntry>, now: u128) -> Option<u128> {
    match last_ban(s) {
        Some(until) => unban_wait(LogType::BAN(until), now),
        None => None,
    }
}

/// The end of a ban that starts at `now`.
pub open spec fn ban_until(now: u128) -> u128 {
    if now + BAN_TIME <= u128::MAX {
        (now + BAN_TIME) as u128
    } else {
        u128::MAX
    }
}

/// The line that records a ban starting at `now`.
pub open spec fn ban_entry(now: u128) -> LogEntry {
    LogEntry { time: now, kind: LogType::BAN(ban_until(now)) }
}

/// The log with its lockout enforced at time `now`: a log that ends in
/// `MAX_FAILS` or more failed attempts with no ban in force gains the ban
/// those failures call for; any other log is unchanged.
pub open spec fn enforced(s: Seq<LogEntry>, now: u128) -> Seq<LogEntry> {
    if remaining(s, now) is None && failure_streak(s) >= MAX_FAILS {
        rotated(s.push(ban_entry(now)))
    } else {
        s
    }
}

/// The log and outcome of an unlock attempt at time `now`. The lockout is
/// enforced first; while a ban is in force the attempt is refused and not
/// logged. Otherwise a success logs `INFO` and a failure logs
/// `LOGIN_FAILED`; a failure that makes `MAX_FAILS` in a row also logs a ban
/// until `now + BAN_TIME`.
pub open spec fn attempt(s: Seq<LogEntry>, now: u128, success: bool) -> (Seq<LogEntry>, Result<
    (),
    LockoutError,
>) {
    let s0 = enforced(s, now);
    match remaining(s0, now) {
        Some(rem) => (s0, Err(LockoutError::CurrentlyBanned(rem))),
        None => if success {
            (rotated(s0.push(LogEntry { time: now, kind: LogType::INFO })), Ok(()))
        } else {
            let s1 = rotated(s0.push(LogEntry { time: now, kind: LogType::LOGIN_FAILED }));
            if failure_streak(s1) >= MAX_FAILS {
                (rotated(s1.push(ban_entry(now))), Ok(()))
            } else {
                (s1, Ok(()))
            }
        },
    }
}

/// How long a line of kind `log` bans at time `now`, if it is a ban in force.
pub fn time_till_unban(log: &LogType, now: u128) -> (r: Option<u128>)
    ensures
        r == unban_wait(*log, now),
{
    match log {
        LogType::BAN(until) => if now < *until {
            Some(*until - now)
        } else {
            None
        },
        _ => None,
    }
}

/// The newest `MAX_LOGS` of `lines`, in order.
fn newest(lines: Vec<LogEntry>) -> (r: Vec<LogEntry>)
    ensures
        r@ == rotated(lines@),
        r@.len() <= MAX_LOGS,
{
    if lines.len() <= MAX_LOGS {
        return lines;
    }
    let start = lines.len() - MAX_LOGS;
    let mut kept: Vec<LogEntry> = Vec::new();
    let mut i: usize = start;
    while i < lines.len()
        invariant
            start == lines@.len() - MAX_LOGS,
            start <= i <= lines@.len(),
            kept@ == lines@.subrange(start as int, i as int),
        decreases lines@.len() - i,
    {
        kept.push(lines[i]);
        i = i + 1;
        assert(kept@ =~= lines@.subrange(start as int, i as int));
    }
    kept
}

/// The lockout log, holding at most `MAX_LOGS` lines, oldest first.
pub struct LockoutLog {
    entries: Vec<LogEntry>,
}

impl View for LockoutLog {
    type V = Seq<LogEntry>;

    closed spec fn view(&self) -> Seq<LogEntry> {
        self.entries@
    }
}

impl LockoutLog {
    #[verifier::type_invariant]
    spec fn bounded(self) -> bool {
        self.entries@.len() <= MAX_LOGS
    }

    /// An empty log.
    pub fn new() -> (r: LockoutLog)
        ensures
            r@ == Seq::<LogEntry>::empty(),
    {
        LockoutLog { entries: Vec::new() }
    }

    /// A log holding the newest `MAX_LOGS` of `lines`, in order.
    pub fn from_entries(lines: Vec<LogEntry>) -> (r: LockoutLog)
        ensures
            r@ == rotated(lines@),
            r@.len() <= MAX_LOGS,
    {
        LockoutLog { entries: newest(lines) }
    }

    /// The lines, oldest first; never more than `MAX_LOGS` of them.
    pub fn entries(&self) -> (r: &Vec<LogEntry>)
        ensures
            r@ == self@,
            self@.len() <= MAX_LOGS,
    {
        proof {
            use_type_invariant(self);
        }
        &self.entries
    }

    /// Appends a line, then drops the oldest lines while the log is over its bound.
    pub fn append(&mut self, e: LogEntry)
        ensures
            final(self)@ == rotated(old(self)@.push(e)),
            final(self)@.len() <= MAX_LOGS,
    {
        let mut all: Vec<LogEntry> = Vec::new();
        let mut i: usize = 0;
        while i < self.entries.len()
            invariant
                i <= self.entries@.len(),
                all@ == self.entries@.subrange(0, i as int),
            decreases self.entries@.len() - i,
        {
            all.push(self.entries[i]);
            i = i + 1;
            assert(all@ =~= self.entries@.subrange(0, i as int));
        }
        assert(all@ =~= self.entries@);
        all.push(e);
        *self = LockoutLog { entries: newest(all) };
    }

    /// The end of the newest ban in the log, if any.
    pub fn last_ban(&self) -> (r: Option<u128>)
        ensures
            r == last_ban(self@),
    {
        let mut i: usize = self.entries.len();
        assert(self@.subrange(0, i as int) =~= self@);
        while i > 0
            invariant
                i <= self@.len(),
                self@ == self.entries@,
                last_ban(self@) == last_ban(self@.subrange(0, i as int)),
            decreases i,
        {
            let ghost prefix = self@.subrange(0, i as int);
            if let LogType::BAN(until) = self.entries[i - 1].kind {
                return Some(until);
            }
            assert(prefix.drop_last() =~= self@.subrange(0, i - 1));
            i = i - 1;
        }
        None
    }

    /// How long the newest ban still lasts at time `now`, if it is in force.
    pub fn time_remaining(&self, now: u128) -> (r: Option<u128>)
        ensures
            r == remaining(self@, now),
    {
        match self.last_ban() {
            Some(until) => time_till_unban(&LogType::BAN(until), now),
            None => None,
        }
    }

    /// The number of failed attempts at the end of the log.
    pub fn failure_streak(&self) -> (r: usize)
        ensures
            r == failure_streak(self@),
    {
        let n: usize = self.entries.len();
        let mut i: usize = n;
        let mut count: usize = 0;
        assert(self@.subrange(0, i as int) =~= self@);
        while i > 0 && self.entries[i - 1].kind == LogType::LOGIN_FAILED
            invariant
                i <= n,
                n == self@.len(),
                self@ == self.entries@,
                count == n - i,
                failure_streak(self@) == count + failure_streak(self@.subrange(0, i as int)),
            decreases i,
        {
            let ghost prefix = self@.subrange(0, i as int);
            assert(prefix.drop_last() =~= self@.subrange(0, i - 1));
            i = i - 1;
            count = count + 1;
        }
        count
    }

    /// Registers an unlock attempt at time `now`. The lockout is enforced
    /// first (see `ban_if_invalid`). While a ban is in force the attempt is
    /// refused with the time left and not logged; otherwise
    /// the attempt is logged, and a failure that makes `MAX_FAILS` in a row
    /// starts a ban of `BAN_TIME`.
    pub fn record_attempt(&mut self, now: u128, success: bool) -> (r: Result<(), LockoutError>)
        ensures
            (final(self)@, r) == attempt(old(self)@, now, success),
            final(self)@.len() <= MAX_LOGS,
    {
        proof {
            use_type_invariant(&*self);
        }
        ban_if_invalid(self, now);
        if let Some(rem) = self.time_remaining(now) {
            return Err(LockoutError::CurrentlyBanned(rem));
        }
        if success {
            self.append(LogEntry { time: now, kind: LogType::INFO });
            return Ok(());
        }
        self.append(LogEntry { time: now, kind: LogType::LOGIN_FAILED });
        if self.failure_streak() >= MAX_FAILS {
            let until = now.saturating_add(BAN_TIME);
            self.append(LogEntry { time: now, kind: LogType::BAN(until) });
        }
        Ok(())
    }
}


proof fn lemma_streak_drop_first(x: Seq<LogEntry>)
    requires
        failure_streak(x) < x.len(),
    ensures
        failure_streak(x.subrange(1, x.len() as int)) == failure_streak(x),
    decreases x.len(),
{
    let y = x.subrange(1, x.len() as int);
    if x.len() >= 2 {
        assert(y.last() == x.last());
        if x.last().kind == LogType::LOGIN_FAILED {
            lemma_streak_drop_first(x.drop_last());
            assert(y.drop_last() =~= x.drop_last().subrange(1, x.len() - 1));
        }
    }
}

proof fn lemma_last_ban_drop_first(x: Seq<LogEntry>)
    requires
        x.len() > 0,
    ensures
        last_ban(x.subrange(1, x.len() as int)) is None || last_ban(x.subrange(1, x.len() as int))
            == last_ban(x),
    decreases x.len(),
{
    let y = x.subrange(1, x.len() as int);
    if x.len() >= 2 {
        assert(y.last() == x.last());
        if !(x.last().kind is BAN) {
            lemma_last_ban_drop_first(x.drop_last());
            assert(y.drop_last() =~= x.drop_last().subrange(1, x.len() - 1));
        }
    }
}

/// Rotation after one append keeps the new line last and drops at most the
/// oldest line.
proof fn lemma_rotated_push(s: Seq<LogEntry>, e: LogEntry)
    requires
        s.len() <= MAX_LOGS,
    ensures
        rotated(s.push(e)).len() <= MAX_LOGS,
        rotated(s.push(e)).len() > 0,
        rotated(s.push(e)).last() == e,
        failure_streak(s) < MAX_LOGS ==> failure_streak(rotated(s.push(e))) == (if e.kind
            == LogType::LOGIN_FAILED {
            failure_streak(s) + 1
        } else {
            0
        }),
        last_ban(rotated(s.push(e))) == (if let LogType::BAN(u) = e.kind {
            Some(u)
        } else {
            last_ban(rotated(s.push(e)).drop_last())
        }),
        !(e.kind is BAN) ==> (last_ban(rotated(s.push(e))) is None || last_ban(
            rotated(s.push(e)),
        ) == last_ban(s)),
{
    let x = s.push(e);
    assert(x.drop_last() =~= s);
    if x.len() > MAX_LOGS {
        assert(rotated(x) =~= x.subrange(1, x.len() as int));
        if failure_streak(s) < MAX_LOGS {
            lemma_streak_drop_first(x);
        }
        lemma_last_ban_drop_first(x);
    }
}

/// The log after failed attempts at each of `times`, in turn.
pub open spec fn failures(s: Seq<LogEntry>, times: Seq<u128>) -> Seq<LogEntry>
    decreases times.len(),
{
    if times.len() == 0 {
        s
    } else {
        attempt(failures(s, times.drop_last()), times.last(), false).0
    }
}

proof fn lemma_failures_below_threshold(s: Seq<LogEntry>, times: Seq<u128>, t0: u128)
    requires
        s.len() <= MAX_LOGS,
        failure_streak(s) == 0,
        last_ban(s) is None || last_ban(s)->Some_0 <= t0,
        times.len() < MAX_FAILS,
        forall|i: int| 0 <= i < times.len() ==> t0 <= #[trigger] times[i],
    ensures
        failures(s, times).len() <= MAX_LOGS,
        failure_streak(failures(s, times)) == times.len(),
        last_ban(failures(s, times)) is None || last_ban(failures(s, times))->Some_0 <= t0,
    decreases times.len(),
{
    if times.len() > 0 {
        let prev = times.drop_last();
        lemma_failures_below_threshold(s, prev, t0);
        let x = failures(s, prev);
        let e = LogEntry { time: times.last(), kind: LogType::LOGIN_FAILED };
        lemma_rotated_push(x, e);
    }
}

/// Lockout threshold: after `MAX_FAILS` failed attempts in a row from a log
/// with no failure streak and no ban in force, any attempt made within
/// `BAN_TIME` of the last failure is refused with the time left, and the log
/// is left as it was.
pub proof fn lemma_lockout_threshold(
    s: Seq<LogEntry>,
    times: Seq<u128>,
    now: u128,
    success: bool,
)
    requires
        s.len() <= MAX_LOGS,
        failure_streak(s) == 0,
        times.len() == MAX_FAILS,
        forall|i: int, j: int| 0 <= i <= j < times.len() ==> times[i] <= times[j],
        remaining(s, times[0]) is None,
        times.last() <= now,
        now < times.last() + BAN_TIME,
        times.last() + BAN_TIME <= u128::MAX,
    ensures
        attempt(failures(s, times), now, success) == (
            failures(s, times),
            Err::<(), LockoutError>(
                LockoutError::CurrentlyBanned((times.last() + BAN_TIME - now) as u128),
            ),
        ),
{
    let prev = times.drop_last();
    assert forall|i: int| 0 <= i < prev.len() implies times[0] <= #[trigger] prev[i] by {
        assert(prev[i] == times[i]);
    }
    lemma_failures_below_threshold(s, prev, times[0]);
    let x = failures(s, prev);
    let t = times.last();
    let e = LogEntry { time: t, kind: LogType::LOGIN_FAILED };
    lemma_rotated_push(x, e);
    let s1 = rotated(x.push(e));
    assert(times[0] <= times[MAX_FAILS - 1]);
    assert(failures(s, times) == attempt(x, t, false).0);
    assert(remaining(x, t) is None);
    assert(failure_streak(s1) == MAX_FAILS);
    let b = LogEntry { time: t, kind: LogType::BAN(ban_until(t)) };
    lemma_rotated_push(s1, b);
    assert(failures(s, times) == rotated(s1.push(b)));
    assert(last_ban(failures(s, times)) == Some(ban_until(t)));
}

/// A success resets the failure streak: after a successful attempt the
/// streak is zero, and a failed attempt after it is logged without a ban.
pub proof fn lemma_success_resets_streak(s: Seq<LogEntry>, now: u128, later: u128)
    requires
        s.len() <= MAX_LOGS,
        remaining(s, now) is None,
        failure_streak(s) < MAX_FAILS,
        now <= later,
    ensures
        attempt(s, now, true).1 is Ok,
        failure_streak(attempt(s, now, true).0) == 0,
        attempt(attempt(s, now, true).0, later, false) == (
            rotated(
                attempt(s, now, true).0.push(LogEntry { time: later, kind: LogType::LOGIN_FAILED }),
            ),
            Ok::<(), LockoutError>(()),
        ),
{
    let e = LogEntry { time: now, kind: LogType::INFO };
    lemma_rotated_push(s, e);
    let s1 = rotated(s.push(e));
    let f = LogEntry { time: later, kind: LogType::LOGIN_FAILED };
    lemma_rotated_push(s1, f);
}

/// Ban expiry: once the newest ban has ended no ban is in force, and an
/// attempt made right after the ban (the log ending with it) is accepted,
/// a failure then counting from one.
pub proof fn lemma_ban_expiry(s: Seq<LogEntry>, until: u128, now: u128)
    requires
        s.len() <= MAX_LOGS,
        last_ban(s) == Some(until),
        until <= now,
    ensures
        remaining(s, now) is None,
        s.last().kind == LogType::BAN(until) ==> attempt(s, now, false).1 is Ok,
        s.last().kind == LogType::BAN(until) ==> attempt(s, now, true).1 is Ok,
        s.last().kind == LogType::BAN(until) ==> failure_streak(attempt(s, now, false).0) == 1,
{
    let f = LogEntry { time: now, kind: LogType::LOGIN_FAILED };
    lemma_rotated_push(s, f);
    assert(s.len() > 0);
}

/// A log that ends in `MAX_FAILS` or more failed attempts, with no ban in
/// force, refuses the next attempt: the ban those failures call for is
/// logged and the whole ban time is left.
pub proof fn lemma_trailing_failures_ban(s: Seq<LogEntry>, now: u128, success: bool)
    requires
        s.len() <= MAX_LOGS,
        failure_streak(s) >= MAX_FAILS,
        remaining(s, now) is None,
        now + BAN_TIME <= u128::MAX,
    ensures
        attempt(s, now, success) == (
            rotated(s.push(ban_entry(now))),
            Err::<(), LockoutError>(LockoutError::CurrentlyBanned(BAN_TIME)),
        ),
{
    lemma_rotated_push(s, ban_entry(now));
}

/// The log after appending each of `lines` in turn.
pub open spec fn appended(s: Seq<LogEntry>, lines: Seq<LogEntry>) -> Seq<LogEntry>
    decreases lines.len(),
{
    if lines.len() == 0 {
        s
    } else {
        rotated(appended(s, lines.drop_last()).push(lines.last()))
    }
}

/// Log rotation: appending lines one by one to a log within its bound keeps
/// exactly the newest `MAX_LOGS` of all lines (all of them, if fewer), in
/// their original order, dropping the oldest first.
pub proof fn lemma_rotation(s: Seq<LogEntry>, lines: Seq<LogEntry>)
    requires
        s.len() <= MAX_LOGS,
    ensures
        appended(s, lines) == rotated(s + lines),
        (s + lines).len() > MAX_LOGS ==> appended(s, lines).len() == MAX_LOGS,
        appended(s, lines) == (s + lines).subrange(
            (s + lines).len() - appended(s, lines).len(),
            (s + lines).len() as int,
        ),
    decreases lines.len(),
{
    let all = s + lines;
    if lines.len() == 0 {
        assert(all =~= s);
        assert(all.subrange(0, all.len() as int) =~= all);
    } else {
        let prev = lines.drop_last();
        lemma_rotation(s, prev);
        assert(all =~= (s + prev).push(lines.last()));
        assert(appended(s, lines) =~= rotated(all));
        assert(rotated(all) =~= all.subrange(all.len() - rotated(all).len(), all.len() as int));
    }
}


/// A decimal digit, as a byte of text.
pub open spec fn is_digit(b: u8) -> bool {
    48 <= b && b <= 57
}

/// The value of a string of decimal digits.
pub open spec fn digits_value(s: Seq<u8>) -> nat
    decreases s.len(),
{
    if s.len() == 0 {
        0
    } else {
        digits_value(s.drop_last()) * 10 + (s.last() - 48) as nat
    }
}

/// The number that `s` writes in decimal, if it is one and fits in 128 bits.
pub open spec fn parse_number(s: Seq<u8>) -> Option<u128> {
    if s.len() > 0 && (forall|i: int| 0 <= i < s.len() ==> is_digit(#[trigger] s[i]))
        && digits_value(s) <= u128::MAX {
        Some(digits_value(s) as u128)
    } else {
        None
    }
}

/// `n` in decimal, without leading zeros.
pub open spec fn decimal(n: nat) -> Seq<u8>
    decreases n,
{
    if n < 10 {
        seq![(n + 48) as u8]
    } else {
        decimal(n / 10).push((n % 10 + 48) as u8)
    }
}

/// The index of the first byte `b` in `s` at or after `i`, or the length of `s`.
pub open spec fn first_from(s: Seq<u8>, i: int, b: u8) -> int
    decreases s.len() - i,
{
    if i >= s.len() || s[i] == b {
        i
    } else {
        first_from(s, i + 1, b)
    }
}

/// The word that names a kind in a log line.
pub open spec fn kind_word(k: LogType) -> Seq<u8> {
    match k {
        LogType::ERROR => seq![69u8, 82, 82, 79, 82],
        LogType::DEBUG => seq![68u8, 69, 66, 85, 71],
        LogType::BAN(_) => seq![66u8, 65, 78],
        LogType::INVALID => seq![73u8, 78, 86, 65, 76, 73, 68],
        LogType::INFO => seq![73u8, 78, 70, 79],
        LogType::LOGIN_FAILED => seq![70u8, 65, 73, 76, 69, 68],
    }
}

/// The kind named by `word`, with what follows it on the line: a ban needs
/// its end time there; an unknown word is an invalid line.
pub open spec fn kind_from(word: Seq<u8>, payload: Option<Seq<u8>>) -> LogType {
    if word == kind_word(LogType::ERROR) {
        LogType::ERROR
    } else if word == kind_word(LogType::DEBUG) {
        LogType::DEBUG
    } else if word == kind_word(LogType::INFO) {
        LogType::INFO
    } else if word == kind_word(LogType::LOGIN_FAILED) {
        LogType::LOGIN_FAILED
    } else if word == kind_word(LogType::BAN(0)) && payload is Some && parse_number(
        payload->Some_0,
    ) is Some {
        LogType::BAN(parse_number(payload->Some_0)->Some_0)
    } else {
        LogType::INVALID
    }
}

/// The entry that a log line reads as: the time, a space, the kind's word,
/// then optionally a space and a payload. A line without a readable time
/// reads as an invalid entry at time zero.
pub open spec fn line_entry(l: Seq<u8>) -> LogEntry {
    let i = first_from(l, 0, 32);
    match parse_number(l.subrange(0, i)) {
        None => LogEntry { time: 0, kind: LogType::INVALID },
        Some(t) => if i >= l.len() {
            LogEntry { time: t, kind: LogType::INVALID }
        } else {
            let j = first_from(l, i + 1, 32);
            let payload = if j < l.len() {
                Some(l.subrange(j + 1, l.len() as int))
            } else {
                None
            };
            LogEntry { time: t, kind: kind_from(l.subrange(i + 1, j), payload) }
        },
    }
}

/// The log line of an entry: its time in decimal, a space, the kind's word,
/// and for a ban a space and the ban's end time in decimal.
pub open spec fn line_text(e: LogEntry) -> Seq<u8> {
    decimal(e.time as nat) + seq![32u8] + kind_word(e.kind) + match e.kind {
        LogType::BAN(u) => seq![32u8] + decimal(u as nat),
        _ => Seq::empty(),
    }
}

proof fn lemma_decimal(n: nat)
    ensures
        decimal(n).len() > 0,
        forall|i: int| 0 <= i < decimal(n).len() ==> is_digit(#[trigger] decimal(n)[i]),
        digits_value(decimal(n)) == n,
    decreases n,
{
    if n >= 10 {
        lemma_decimal(n / 10);
        assert(decimal(n).drop_last() =~= decimal(n / 10));
        let dgt = decimal(n).last();
        assert(dgt == (n % 10 + 48) as u8);
        assert(dgt as int == n % 10 + 48);
        assert((n / 10) * 10 + n % 10 == n) by (nonlinear_arith);
        assert(digits_value(decimal(n)) == digits_value(decimal(n / 10)) * 10 + (dgt - 48) as nat);
        assert((dgt - 48) as nat == n % 10);
        assert(digits_value(decimal(n / 10)) == n / 10);
        assert(digits_value(decimal(n)) == n);
    } else {
        assert(decimal(n).drop_last() =~= Seq::<u8>::empty());
        assert(decimal(n).last() as int == n + 48);
        assert(digits_value(Seq::<u8>::empty()) == 0);
        assert(digits_value(decimal(n)) == digits_value(decimal(n).drop_last()) * 10 + (decimal(n).last() - 48) as nat);
    }
}

proof fn lemma_parse_decimal(n: u128)
    ensures
        parse_number(decimal(n as nat)) == Some(n),
{
    lemma_decimal(n as nat);
}

/// In `a + [b] + rest`, where `a` holds no byte `b`, the first `b` from any
/// index within `a` is the one after `a`.
proof fn lemma_first_from(s: Seq<u8>, i: int, end: int, b: u8)
    requires
        0 <= i <= end < s.len(),
        s[end] == b,
        forall|k: int| i <= k < end ==> s[k] != b,
    ensures
        first_from(s, i, b) == end,
    decreases end - i,
{
    if i < end {
        lemma_first_from(s, i + 1, end, b);
    }
}

proof fn lemma_first_from_none(s: Seq<u8>, i: int, b: u8)
    requires
        0 <= i <= s.len(),
        forall|k: int| i <= k < s.len() ==> s[k] != b,
    ensures
        first_from(s, i, b) == s.len(),
    decreases s.len() - i,
{
    if i < s.len() {
        lemma_first_from_none(s, i + 1, b);
    }
}

/// Reading a written log line gives back the entry it was written from.
pub proof fn lemma_line_round_trip(e: LogEntry)
    ensures
        line_entry(line_text(e)) == e,
{
    let l = line_text(e);
    let d = decimal(e.time as nat);
    let w = kind_word(e.kind);
    lemma_decimal(e.time as nat);
    lemma_parse_decimal(e.time);
    let i = d.len() as int;
    assert(l[i] == 32u8);
    assert forall|k: int| 0 <= k < i implies l[k] != 32u8 by {
        assert(l[k] == d[k]);
    }
    lemma_first_from(l, 0, i, 32u8);
    assert(l.subrange(0, i) =~= d);
    let j = i + 1 + w.len();
    assert forall|k: int| i + 1 <= k < j implies l[k] != 32u8 by {
        assert(l[k] == w[k - i - 1]);
    }
    assert(l.subrange(i + 1, j) =~= w);
    match e.kind {
        LogType::BAN(u) => {
            assert(l[j] == 32u8);
            lemma_first_from(l, i + 1, j, 32u8);
            lemma_parse_decimal(u);
            assert(l.subrange(j + 1, l.len() as int) =~= decimal(u as nat));
        },
        _ => {
            assert(l.len() == j);
            lemma_first_from_none(l, i + 1, 32u8);
        },
    }
}


proof fn lemma_first_from_bounds(s: Seq<u8>, i: int, b: u8)
    requires
        0 <= i <= s.len(),
    ensures
        i <= first_from(s, i, b) <= s.len(),
        first_from(s, i, b) < s.len() ==> s[first_from(s, i, b)] == b,
    decreases s.len() - i,
{
    if i < s.len() && s[i] != b {
        lemma_first_from_bounds(s, i + 1, b);
    }
}

/// The lines of a log text from index `i`: each up to the next newline, the
/// last one up to the end; a final newline starts no further line.
pub open spec fn lines_from(t: Seq<u8>, i: int) -> Seq<Seq<u8>>
    decreases t.len() - i,
{
    if i < 0 || i >= t.len() {
        Seq::empty()
    } else {
        let j = first_from(t, i, 10);
        if j >= t.len() {
            seq![t.subrange(i, t.len() as int)]
        } else if j < i {
            seq![t.subrange(i, i)] + lines_from(t, i + 1)
        } else {
            seq![t.subrange(i, j)] + lines_from(t, j + 1)
        }
    }
}

/// The entries that a log text reads as, one per line.
pub open spec fn log_entries(t: Seq<u8>) -> Seq<LogEntry> {
    lines_from(t, 0).map_values(|l: Seq<u8>| line_entry(l))
}

fn find_from(s: &[u8], i: usize, b: u8) -> (r: usize)
    requires
        i <= s@.len(),
    ensures
        r == first_from(s@, i as int, b),
        i <= r <= s@.len(),
{
    proof {
        lemma_first_from_bounds(s@, i as int, b);
    }
    let mut k: usize = i;
    while k < s.len() && s[k] != b
        invariant
            i <= k <= s@.len(),
            first_from(s@, i as int, b) == first_from(s@, k as int, b),
        decreases s@.len() - k,
    {
        k = k + 1;
    }
    k
}

/// The number written in decimal in `l[start..end]`, if it is one and fits.
fn number_in(l: &[u8], start: usize, end: usize) -> (r: Option<u128>)
    requires
        start <= end <= l@.len(),
    ensures
        r == parse_number(l@.subrange(start as int, end as int)),
{
    if start == end {
        return None;
    }
    let mut v: u128 = 0;
    let mut too_big = false;
    let mut k: usize = start;
    assert(l@.subrange(start as int, start as int) =~= Seq::<u8>::empty());
    while k < end
        invariant
            start <= k <= end <= l@.len(),
            forall|m: int| start <= m < k ==> is_digit(#[trigger] l@[m]),
            !too_big ==> v == digits_value(l@.subrange(start as int, k as int)),
            too_big ==> digits_value(l@.subrange(start as int, k as int)) > u128::MAX,
        decreases end - k,
    {
        let b = l[k];
        let ghost next = l@.subrange(start as int, k + 1);
        assert(next.drop_last() =~= l@.subrange(start as int, k as int));
        if b < 48 || b > 57 {
            assert(!is_digit(l@.subrange(start as int, end as int)[k - start]));
            return None;
        }
        let d: u128 = (b - 48) as u128;
        assert(digits_value(next) == digits_value(l@.subrange(start as int, k as int)) * 10 + d);
        if !too_big {
            if v > (u128::MAX - d) / 10 {
                assert(v * 10 + d > u128::MAX) by (nonlinear_arith)
                    requires
                        v > (u128::MAX - d) / 10,
                        d <= 9,
                ;
                too_big = true;
            } else {
                assert(v * 10 + d <= u128::MAX) by (nonlinear_arith)
                    requires
                        v <= (u128::MAX - d) / 10,
                        d <= 9,
                ;
                v = v * 10 + d;
            }
        } else {
            assert(digits_value(next) >= digits_value(l@.subrange(start as int, k as int)));
        }
        k = k + 1;
    }
    if too_big {
        None
    } else {
        Some(v)
    }
}

/// Whether `l[start..end]` is `w`.
fn word_is(l: &[u8], start: usize, end: usize, w: &Vec<u8>) -> (r: bool)
    requires
        start <= end <= l@.len(),
    ensures
        r == (l@.subrange(start as int, end as int) == w@),
{
    if end - start != w.len() {
        return false;
    }
    let mut k: usize = 0;
    while k < w.len()
        invariant
            end - start == w@.len(),
            start <= end <= l@.len(),
            k <= w@.len(),
            forall|m: int| 0 <= m < k ==> l@[start + m] == w@[m],
        decreases w@.len() - k,
    {
        if l[start + k] != w[k] {
            assert(l@.subrange(start as int, end as int)[k as int] != w@[k as int]);
            return false;
        }
        k = k + 1;
    }
    assert(l@.subrange(start as int, end as int) =~= w@);
    true
}

fn kind_word_of(k: LogType) -> (r: Vec<u8>)
    ensures
        r@ == kind_word(k),
{
    match k {
        LogType::ERROR => vec![69u8, 82, 82, 79, 82],
        LogType::DEBUG => vec![68u8, 69, 66, 85, 71],
        LogType::BAN(_) => vec![66u8, 65, 78],
        LogType::INVALID => vec![73u8, 78, 86, 65, 76, 73, 68],
        LogType::INFO => vec![73u8, 78, 70, 79],
        LogType::LOGIN_FAILED => vec![70u8, 65, 73, 76, 69, 68],
    }
}

/// Reads one log line. Kinds are matched by their exact word, so a payload
/// that mentions another kind's word cannot change the kind.
pub fn parse_line(line: &[u8]) -> (r: LogEntry)
    ensures
        r == line_entry(line@),
{
    let n = line.len();
    let i = find_from(line, 0, 32);
    let time = match number_in(line, 0, i) {
        Some(t) => t,
        None => {
            return LogEntry { time: 0, kind: LogType::INVALID };
        },
    };
    if i >= n {
        return LogEntry { time, kind: LogType::INVALID };
    }
    let j = find_from(line, i + 1, 32);
    let kind = if word_is(line, i + 1, j, &kind_word_of(LogType::ERROR)) {
        LogType::ERROR
    } else if word_is(line, i + 1, j, &kind_word_of(LogType::DEBUG)) {
        LogType::DEBUG
    } else if word_is(line, i + 1, j, &kind_word_of(LogType::INFO)) {
        LogType::INFO
    } else if word_is(line, i + 1, j, &kind_word_of(LogType::LOGIN_FAILED)) {
        LogType::LOGIN_FAILED
    } else if word_is(line, i + 1, j, &kind_word_of(LogType::BAN(0))) && j < n {
        match number_in(line, j + 1, n) {
            Some(u) => LogType::BAN(u),
            None => LogType::INVALID,
        }
    } else {
        LogType::INVALID
    };
    LogEntry { time, kind }
}

fn push_decimal(out: &mut Vec<u8>, n: u128)
    ensures
        final(out)@ == old(out)@ + decimal(n as nat),
    decreases n,
{
    if n >= 10 {
        push_decimal(out, n / 10);
    }
    out.push((n % 10) as u8 + 48);
    assert(out@ =~= old(out)@ + decimal(n as nat));
}

/// Writes the log line of an entry, without its line break.
pub fn format_line(e: &LogEntry) -> (r: Vec<u8>)
    ensures
        r@ == line_text(*e),
{
    let mut out: Vec<u8> = Vec::new();
    push_decimal(&mut out, e.time);
    out.push(32u8);
    let w = kind_word_of(e.kind);
    let mut k: usize = 0;
    let ghost start = out@;
    while k < w.len()
        invariant
            k <= w@.len(),
            out@ == start + w@.subrange(0, k as int),
        decreases w@.len() - k,
    {
        out.push(w[k]);
        k = k + 1;
        assert(out@ =~= start + w@.subrange(0, k as int));
    }
    assert(w@.subrange(0, w@.len() as int) =~= w@);
    if let LogType::BAN(u) = e.kind {
        out.push(32u8);
        push_decimal(&mut out, u);
    }
    assert(out@ =~= line_text(*e));
    out
}

/// Reads a log text, one entry per line; unreadable lines read as invalid
/// entries and never fail the whole read.
pub fn parse_log(text: &[u8]) -> (r: Vec<LogEntry>)
    ensures
        r@ == log_entries(text@),
{
    let n = text.len();
    let mut out: Vec<LogEntry> = Vec::new();
    let mut i: usize = 0;
    while i < n
        invariant
            n == text@.len(),
            i <= n,
            out@ + lines_from(text@, i as int).map_values(|l: Seq<u8>| line_entry(l))
                == log_entries(text@),
        decreases n - i,
    {
        let j = find_from(text, i, 10u8);
        let mut line: Vec<u8> = Vec::new();
        let mut k: usize = i;
        while k < j
            invariant
                i <= k <= j <= n,
                n == text@.len(),
                line@ == text@.subrange(i as int, k as int),
            decreases j - k,
        {
            line.push(text[k]);
            k = k + 1;
            assert(line@ =~= text@.subrange(i as int, k as int));
        }
        let ghost before = out@;
        out.push(parse_line(line.as_slice()));
        let ghost rest = lines_from(text@, j + 1);
        assert(lines_from(text@, i as int) == seq![text@.subrange(i as int, j as int)] + rest);
        assert(lines_from(text@, i as int).map_values(|l: Seq<u8>| line_entry(l)) =~= seq![
            line_entry(line@),
        ] + rest.map_values(|l: Seq<u8>| line_entry(l)));
        assert(out@ + rest.map_values(|l: Seq<u8>| line_entry(l)) =~= before + lines_from(
            text@,
            i as int,
        ).map_values(|l: Seq<u8>| line_entry(l)));
        if j >= n {
            assert(rest =~= Seq::<Seq<u8>>::empty());
            assert(out@ =~= out@ + rest.map_values(|l: Seq<u8>| line_entry(l)));
            return out;
        }
        i = j + 1;
    }
    assert(lines_from(text@, i as int) =~= Seq::<Seq<u8>>::empty());
    assert(out@ =~= out@ + lines_from(text@, i as int).map_values(|l: Seq<u8>| line_entry(l)));
    out
}


/// The text of a log: each entry's line followed by a line break.
pub open spec fn log_text(es: Seq<LogEntry>) -> Seq<u8>
    decreases es.len(),
{
    if es.len() == 0 {
        Seq::empty()
    } else {
        line_text(es[0]) + seq![10u8] + log_text(es.drop_first())
    }
}

proof fn lemma_log_text_push(es: Seq<LogEntry>, e: LogEntry)
    ensures
        log_text(es.push(e)) == log_text(es) + line_text(e) + seq![10u8],
    decreases es.len(),
{
    if es.len() == 0 {
        assert(es.push(e).drop_first() =~= Seq::<LogEntry>::empty());
        assert(es.push(e)[0] == e);
        assert(log_text(es) == Seq::<u8>::empty());
        assert(log_text(es.push(e).drop_first()) == Seq::<u8>::empty());
        assert(log_text(es.push(e)) =~= log_text(es) + line_text(e) + seq![10u8]);
    } else {
        lemma_log_text_push(es.drop_first(), e);
        assert(es.push(e).drop_first() =~= es.drop_first().push(e));
        assert(es.push(e)[0] == es[0]);
        assert(log_text(es.push(e)) == line_text(es[0]) + seq![10u8] + log_text(
            es.drop_first().push(e),
        ));
        assert(log_text(es) == line_text(es[0]) + seq![10u8] + log_text(es.drop_first()));
        assert(log_text(es.push(e)) =~= log_text(es) + line_text(e) + seq![10u8]);
    }
}

proof fn lemma_line_text_has_no_break(e: LogEntry)
    ensures
        forall|i: int| 0 <= i < line_text(e).len() ==> line_text(e)[i] != 10u8,
{
    lemma_decimal(e.time as nat);
    let d = decimal(e.time as nat);
    let w = kind_word(e.kind);
    let l = line_text(e);
    assert forall|i: int| 0 <= i < l.len() implies l[i] != 10u8 by {
        if i < d.len() {
            assert(l[i] == d[i]);
        } else if i == d.len() {
        } else if i < d.len() + 1 + w.len() {
            assert(l[i] == w[i - d.len() - 1]);
        } else if let LogType::BAN(u) = e.kind {
            lemma_decimal(u as nat);
            if i > d.len() + 1 + w.len() {
                assert(l[i] == decimal(u as nat)[i - d.len() - 2 - w.len()]);
            }
        }
    }
}

proof fn lemma_first_from_shift(p: Seq<u8>, q: Seq<u8>, k: int, b: u8)
    requires
        0 <= k <= q.len(),
    ensures
        first_from(p + q, p.len() + k, b) == p.len() + first_from(q, k, b),
    decreases q.len() - k,
{
    if k < q.len() {
        assert((p + q)[p.len() + k] == q[k]);
        if q[k] != b {
            lemma_first_from_shift(p, q, k + 1, b);
        }
    }
}

proof fn lemma_lines_shift(p: Seq<u8>, q: Seq<u8>, k: int)
    requires
        0 <= k <= q.len(),
    ensures
        lines_from(p + q, p.len() + k) == lines_from(q, k),
    decreases q.len() - k,
{
    let t = p + q;
    if k < q.len() {
        lemma_first_from_shift(p, q, k, 10u8);
        lemma_first_from_bounds(q, k, 10u8);
        let j = first_from(q, k, 10u8);
        if j >= q.len() {
            assert(t.subrange(p.len() + k, t.len() as int) =~= q.subrange(k, q.len() as int));
        } else {
            assert(t.subrange(p.len() + k, p.len() + j) =~= q.subrange(k, j));
            lemma_lines_shift(p, q, j + 1);
        }
    }
}

/// Reading the text of a log gives back its entries, in order.
pub proof fn lemma_log_round_trip(es: Seq<LogEntry>)
    ensures
        log_entries(log_text(es)) == es,
    decreases es.len(),
{
    let t = log_text(es);
    if es.len() == 0 {
        assert(log_entries(t) =~= es);
    } else {
        let line = line_text(es[0]);
        let rest = log_text(es.drop_first());
        lemma_line_text_has_no_break(es[0]);
        lemma_line_round_trip(es[0]);
        lemma_log_round_trip(es.drop_first());
        assert(t =~= (line + seq![10u8]) + rest);
        assert(t[line.len() as int] == 10u8);
        assert forall|k: int| 0 <= k < line.len() implies t[k] != 10u8 by {
            assert(t[k] == line[k]);
        }
        lemma_first_from(t, 0, line.len() as int, 10u8);
        lemma_lines_shift(line + seq![10u8], rest, 0);
        assert(t.subrange(0, line.len() as int) =~= line);
        assert(lines_from(t, 0) == seq![line] + lines_from(rest, 0));
        assert(log_entries(t) =~= seq![es[0]] + log_entries(rest));
        assert(es =~= seq![es[0]] + es.drop_first());
    }
}

/// Writes the text of a log: each entry's line followed by a line break.
pub fn format_log(entries: &Vec<LogEntry>) -> (r: Vec<u8>)
    ensures
        r@ == log_text(entries@),
{
    let mut out: Vec<u8> = Vec::new();
    let mut i: usize = 0;
    assert(entries@.subrange(0, 0) =~= Seq::<LogEntry>::empty());
    while i < entries.len()
        invariant
            i <= entries@.len(),
            out@ == log_text(entries@.subrange(0, i as int)),
        decreases entries@.len() - i,
    {
        let line = format_line(&entries[i]);
        let mut k: usize = 0;
        let ghost start = out@;
        while k < line.len()
            invariant
                k <= line@.len(),
                out@ == start + line@.subrange(0, k as int),
            decreases line@.len() - k,
        {
            out.push(line[k]);
            k = k + 1;
            assert(out@ =~= start + line@.subrange(0, k as int));
        }
        assert(line@.subrange(0, line@.len() as int) =~= line@);
        out.push(10u8);
        proof {
            lemma_log_text_push(entries@.subrange(0, i as int), entries@[i as int]);
            assert(entries@.subrange(0, i + 1) =~= entries@.subrange(0, i as int).push(
                entries@[i as int],
            ));
        }
        i = i + 1;
        assert(out@ =~= log_text(entries@.subrange(0, i as int)));
    }
    assert(entries@.subrange(0, entries@.len() as int) =~= entries@);
    out
}


/// The kinds of the newest `n` lines of the log (all of them, if fewer), in
/// order; `None` for an empty log.
pub fn get_last_logs(log: &LockoutLog, n: usize) -> (r: Option<Vec<LogType>>)
    ensures
        log@.len() == 0 <==> r is None,
        r is Some ==> r->Some_0@ == log@.subrange(
            if log@.len() > n {
                log@.len() - n
            } else {
                0
            },
            log@.len() as int,
        ).map_values(|e: LogEntry| e.kind),
{
    let entries = log.entries();
    let len = entries.len();
    if len == 0 {
        return None;
    }
    let start = if len > n {
        len - n
    } else {
        0
    };
    let mut kinds: Vec<LogType> = Vec::new();
    let mut i: usize = start;
    while i < len
        invariant
            len == entries@.len(),
            entries@ == log@,
            start <= i <= len,
            kinds@ == entries@.subrange(start as int, i as int).map_values(|e: LogEntry| e.kind),
        decreases len - i,
    {
        kinds.push(entries[i].kind);
        i = i + 1;
        assert(kinds@ =~= entries@.subrange(start as int, i as int).map_values(
            |e: LogEntry| e.kind,
        ));
    }
    Some(kinds)
}

/// Enforces the lockout at time `now` and says whether an unlock attempt may
/// be made: a log that ends in `MAX_FAILS` or more failed attempts with no
/// ban in force gains the ban they call for, and the answer is false while a
/// ban is in force.
pub fn ban_if_invalid(log: &mut LockoutLog, now: u128) -> (r: bool)
    ensures
        final(log)@ == enforced(old(log)@, now),
        final(log)@.len() <= MAX_LOGS,
        r == (remaining(old(log)@, now) is None && failure_streak(old(log)@) < MAX_FAILS),
{
    proof {
        use_type_invariant(&*log);
    }
    if log.time_remaining(now).is_some() {
        return false;
    }
    if log.failure_streak() < MAX_FAILS {
        return true;
    }
    log.append(LogEntry { time: now, kind: LogType::BAN(now.saturating_add(BAN_TIME)) });
    false
}

} // verus!
