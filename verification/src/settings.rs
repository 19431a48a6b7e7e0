use vstd::prelude::*;

use crate::text::{chars_eq, chars_of, decimal, decimal_chars, digit_char, string_of};

verus! {

#[verifier::external_type_specification]
#[verifier::external_body]
#[verifier::reject_recursive_types(T)]
pub struct ExMutex<T: ?Sized>(std::sync::Mutex<T>);

/// The overlay's settings.
pub struct Settings {
    /// Seconds between polls. `-1` = never (manual only).
    pub refresh_secs: i64,
    /// How many recent chats to show. `0` = hide section.
    pub recent_chats: i64,
    /// `system` | `12h` | `24h` — system falls back to 12h if detection fails.
    pub clock_format: String,
    /// Register logon autostart unless the user turns it off.
    pub launch_on_startup: bool,
}

/// The settings shared between the tray and the overlay's commands.
pub struct SettingsState(pub std::sync::Mutex<Settings>);

pub open spec fn system_clock() -> Seq<char> {
    seq!['s', 'y', 's', 't', 'e', 'm']
}

pub open spec fn clock_12h() -> Seq<char> {
    seq!['1', '2', 'h']
}

pub open spec fn clock_24h() -> Seq<char> {
    seq!['2', '4', 'h']
}

/// Recent chats shown when the stored settings do not say.
pub fn default_recent_chats() -> (r: i64)
    ensures
        r == 3,
{
    3
}

/// Clock format used when the stored settings do not say.
pub fn default_clock_format() -> (r: String)
    ensures
        r@ == system_clock(),
{
    let cs: Vec<char> = vec!['s', 'y', 's', 't', 'e', 'm'];
    assert(cs@ =~= system_clock());
    string_of(cs.as_slice())
}

/// Launch on startup unless the stored settings say otherwise.
pub fn default_launch_on_startup() -> (r: bool)
    ensures
        r,
{
    true
}

impl Default for Settings {
    fn default() -> (r: Settings)
        ensures
            r.refresh_secs == 20,
            r.recent_chats == 3,
            r.clock_format@ == system_clock(),
            r.launch_on_startup,
    {
        Settings {
            refresh_secs: 20,
            recent_chats: default_recent_chats(),
            clock_format: default_clock_format(),
            launch_on_startup: default_launch_on_startup(),
        }
    }
}

// ---------------------------------------------------------------------------
// The choices offered in the tray
// ---------------------------------------------------------------------------

/// Refresh intervals offered, in seconds; `-1` is "never".
pub open spec fn refresh_choices() -> Seq<i64> {
    seq![10i64, 20i64, 30i64, 60i64, 120i64, 300i64, 600i64, -1i64]
}

/// Recent-chat counts offered; `0` hides the section.
pub open spec fn recent_chats_choices() -> Seq<i64> {
    seq![1i64, 2, 3, 5, 10, 0]
}

/// Clock formats offered.
pub open spec fn clock_choices() -> Seq<Seq<char>> {
    seq![system_clock(), clock_12h(), clock_24h()]
}

pub fn refresh_choices_secs() -> (r: Vec<i64>)
    ensures
        r@ == refresh_choices(),
{
    let r: Vec<i64> = vec![10, 20, 30, 60, 120, 300, 600, -1];
    assert(r@ =~= refresh_choices());
    r
}

pub fn recent_chats_choices_list() -> (r: Vec<i64>)
    ensures
        r@ == recent_chats_choices(),
{
    let r: Vec<i64> = vec![1, 2, 3, 5, 10, 0];
    assert(r@ =~= recent_chats_choices());
    r
}

pub fn clock_choices_list() -> (r: Vec<String>)
    ensures
        r.len() == 3,
        forall|i: int| 0 <= i < 3 ==> (#[trigger] r@[i])@ == clock_choices()[i],
{
    let a: Vec<char> = vec!['s', 'y', 's', 't', 'e', 'm'];
    let b: Vec<char> = vec!['1', '2', 'h'];
    let c: Vec<char> = vec!['2', '4', 'h'];
    assert(a@ =~= system_clock());
    assert(b@ =~= clock_12h());
    assert(c@ =~= clock_24h());
    let mut r: Vec<String> = Vec::new();
    r.push(string_of(a.as_slice()));
    r.push(string_of(b.as_slice()));
    r.push(string_of(c.as_slice()));
    r
}

/// `v.contains(&x)`.
pub(crate) fn contains_i64(v: &Vec<i64>, x: i64) -> (r: bool)
    ensures
        r == v@.contains(x),
{
    let mut i: usize = 0;
    while i < v.len()
        invariant
            i <= v.len(),
            forall|j: int| 0 <= j < i ==> v@[j] != x,
        decreases v.len() - i,
    {
        if v[i] == x {
            assert(v@[i as int] == x);
            return true;
        }
        i = i + 1;
    }
    false
}

/// `a@ == b` for a string and a character sequence.
fn str_is(a: &str, b: &Vec<char>) -> (r: bool)
    ensures
        r == (a@ == b@),
{
    let cs = chars_of(a);
    chars_eq(&cs, b)
}

/// The decimal text of a signed number, as `i64::to_string` writes it.
pub open spec fn signed_decimal(x: int) -> Seq<char> {
    if x < 0 {
        seq!['-'] + decimal((-x) as nat)
    } else {
        decimal(x as nat)
    }
}

pub fn signed_decimal_chars(x: i64) -> (r: Vec<char>)
    ensures
        r@ == signed_decimal(x as int),
{
    if x < 0 {
        let m: u64 = if x == i64::MIN {
            9_223_372_036_854_775_808
        } else {
            (-x) as u64
        };
        let d = decimal_chars(m);
        let mut r: Vec<char> = Vec::new();
        r.push('-');
        let mut k: usize = 0;
        while k < d.len()
            invariant
                k <= d.len(),
                r@ == seq!['-'] + d@.take(k as int),
            decreases d.len() - k,
        {
            r.push(d[k]);
            assert(d@.take(k + 1) =~= d@.take(k as int).push(d@[k as int]));
            k = k + 1;
        }
        assert(d@.take(d.len() as int) =~= d@);
        r
    } else {
        decimal_chars(x as u64)
    }
}

/// `prefix` followed by `tail`, as a string.
fn message(prefix: &str, tail: &Vec<char>) -> (r: String)
    ensures
        r@ == prefix@ + tail@,
{
    let mut r = String::from_str(prefix);
    let t = string_of(tail.as_slice());
    r.append(t.as_str());
    r
}

impl Settings {
    /// Sets the refresh interval to one of the offered choices.
    pub fn apply_refresh_secs(&mut self, secs: i64) -> (r: Result<(), String>)
        ensures
            refresh_choices().contains(secs) ==> r is Ok && final(self).refresh_secs == secs
                && final(self).recent_chats == old(self).recent_chats
                && final(self).clock_format == old(self).clock_format
                && final(self).launch_on_startup == old(self).launch_on_startup,
            !refresh_choices().contains(secs) ==> *final(self) == *old(self) && (r matches Err(e)
                && e@ == "unsupported refresh interval: "@ + signed_decimal(secs as int)),
    {
        if !contains_i64(&refresh_choices_secs(), secs) {
            return Err(message("unsupported refresh interval: ", &signed_decimal_chars(secs)));
        }
        self.refresh_secs = secs;
        Ok(())
    }

    /// Sets how many recent chats are shown to one of the offered choices.
    pub fn apply_recent_chats(&mut self, count: i64) -> (r: Result<(), String>)
        ensures
            recent_chats_choices().contains(count) ==> r is Ok && final(self).recent_chats == count
                && final(self).refresh_secs == old(self).refresh_secs
                && final(self).clock_format == old(self).clock_format
                && final(self).launch_on_startup == old(self).launch_on_startup,
            !recent_chats_choices().contains(count) ==> *final(self) == *old(self) && (r matches Err(
                e,
            ) && e@ == "unsupported recent chats count: "@ + signed_decimal(count as int)),
    {
        if !contains_i64(&recent_chats_choices_list(), count) {
            return Err(message("unsupported recent chats count: ", &signed_decimal_chars(count)));
        }
        self.recent_chats = count;
        Ok(())
    }

    /// Sets the clock format to one of the offered choices.
    pub fn apply_clock_format(&mut self, format: String) -> (r: Result<(), String>)
        ensures
            clock_choices().contains(format@) ==> r is Ok && final(self).clock_format == format
                && final(self).refresh_secs == old(self).refresh_secs
                && final(self).recent_chats == old(self).recent_chats
                && final(self).launch_on_startup == old(self).launch_on_startup,
            !clock_choices().contains(format@) ==> *final(self) == *old(self) && (r matches Err(e)
                && e@ == "unsupported clock format: "@ + format@),
    {
        let a: Vec<char> = vec!['s', 'y', 's', 't', 'e', 'm'];
        let b: Vec<char> = vec!['1', '2', 'h'];
        let c: Vec<char> = vec!['2', '4', 'h'];
        assert(a@ =~= system_clock());
        assert(b@ =~= clock_12h());
        assert(c@ =~= clock_24h());
        let known = str_is(format.as_str(), &a) || str_is(format.as_str(), &b) || str_is(
            format.as_str(),
            &c,
        );
        assert(known == clock_choices().contains(format@)) by {
            if clock_choices().contains(format@) {
                let i = choose|i: int| 0 <= i < 3 && clock_choices()[i] == format@;
                assert(i == 0 || i == 1 || i == 2);
            }
            if known {
                if format@ == a@ {
                    assert(clock_choices()[0] == format@);
                } else if format@ == b@ {
                    assert(clock_choices()[1] == format@);
                } else {
                    assert(clock_choices()[2] == format@);
                }
            }
        }
        if !known {
            let cs = chars_of(format.as_str());
            return Err(message("unsupported clock format: ", &cs));
        }
        self.clock_format = format;
        Ok(())
    }

    /// How many recent chats the overlay asks for (a negative count asks for none).
    pub fn recent_chat_limit(&self) -> (r: usize)
        ensures
            r == (if self.recent_chats > 0 {
                self.recent_chats as int
            } else {
                0
            }) as usize,
    {
        let n: i64 = if self.recent_chats > 0 {
            self.recent_chats
        } else {
            0
        };
        n as usize
    }
}


// ---------------------------------------------------------------------------
// Tray labels
// ---------------------------------------------------------------------------

pub open spec fn refresh_label_text(secs: int) -> Seq<char> {
    if secs == -1 {
        "Never (manual)"@
    } else if secs == 10 {
        "10 seconds"@
    } else if secs == 20 {
        "20 seconds"@
    } else if secs == 30 {
        "30 seconds"@
    } else if secs == 60 {
        "1 minute"@
    } else if secs == 120 {
        "2 minutes"@
    } else if secs == 300 {
        "5 minutes"@
    } else if secs == 600 {
        "10 minutes"@
    } else {
        "Custom"@
    }
}

/// A two-digit number is written as its tens digit and its units digit.
proof fn lemma_two_digits(n: nat)
    requires
        10 <= n < 100,
    ensures
        decimal(n) == seq![digit_char(n as int / 10), digit_char(n as int % 10)],
{
    reveal_with_fuel(decimal, 2);
    assert(decimal(n / 10) == seq![digit_char((n / 10) as int)]);
    assert(decimal(n) =~= seq![digit_char(n as int / 10), digit_char(n as int % 10)]);
}

/// The tray's name for a refresh interval: an offered interval is named by
/// its number of seconds or minutes.
pub fn refresh_label(secs: i64) -> (r: &'static str)
    ensures
        r@ == refresh_label_text(secs as int),
        secs == 10 || secs == 20 || secs == 30 ==> r@ == decimal(secs as nat) + " seconds"@,
        secs == 120 || secs == 300 || secs == 600 ==> r@ == decimal((secs / 60) as nat)
            + " minutes"@,
        secs == 60 ==> r@ == decimal(1) + " minute"@,
        secs == -1 ==> r@ == "Never (manual)"@,
{
    proof {
        reveal_strlit("10 seconds");
        reveal_strlit("20 seconds");
        reveal_strlit("30 seconds");
        reveal_strlit(" seconds");
        reveal_strlit("2 minutes");
        reveal_strlit("5 minutes");
        reveal_strlit("10 minutes");
        reveal_strlit(" minutes");
        reveal_strlit("1 minute");
        reveal_strlit(" minute");
        lemma_two_digits(10);
        lemma_two_digits(20);
        lemma_two_digits(30);
        assert(decimal(1) == seq!['1']);
        assert(decimal(2) == seq!['2']);
        assert(decimal(5) == seq!['5']);
        assert("10 seconds"@ =~= decimal(10) + " seconds"@);
        assert("20 seconds"@ =~= decimal(20) + " seconds"@);
        assert("30 seconds"@ =~= decimal(30) + " seconds"@);
        assert("2 minutes"@ =~= decimal(2) + " minutes"@);
        assert("5 minutes"@ =~= decimal(5) + " minutes"@);
        assert("10 minutes"@ =~= decimal(10) + " minutes"@);
        assert("1 minute"@ =~= decimal(1) + " minute"@);
    }
    match secs {
        -1 => "Never (manual)",
        10 => "10 seconds",
        20 => "20 seconds",
        30 => "30 seconds",
        60 => "1 minute",
        120 => "2 minutes",
        300 => "5 minutes",
        600 => "10 minutes",
        _ => "Custom",
    }
}

pub open spec fn recent_label_text(n: int) -> Seq<char> {
    if n == 0 {
        "Hide"@
    } else if n == 1 {
        "1 chat"@
    } else if n == 2 {
        "2 chats"@
    } else if n == 3 {
        "3 chats"@
    } else if n == 5 {
        "5 chats"@
    } else if n == 10 {
        "10 chats"@
    } else {
        "Custom"@
    }
}

/// The tray's name for a recent-chats count: an offered count is named by
/// its number of chats, and 0 hides the list.
pub fn recent_label(n: i64) -> (r: &'static str)
    ensures
        r@ == recent_label_text(n as int),
        n == 2 || n == 3 || n == 5 || n == 10 ==> r@ == decimal(n as nat) + " chats"@,
        n == 1 ==> r@ == decimal(1) + " chat"@,
        n == 0 ==> r@ == "Hide"@,
{
    proof {
        reveal_strlit("1 chat");
        reveal_strlit("2 chats");
        reveal_strlit("3 chats");
        reveal_strlit("5 chats");
        reveal_strlit("10 chats");
        reveal_strlit(" chats");
        reveal_strlit(" chat");
        lemma_two_digits(10);
        assert(decimal(1) == seq!['1']);
        assert(decimal(2) == seq!['2']);
        assert(decimal(3) == seq!['3']);
        assert(decimal(5) == seq!['5']);
        assert("1 chat"@ =~= decimal(1) + " chat"@);
        assert("2 chats"@ =~= decimal(2) + " chats"@);
        assert("3 chats"@ =~= decimal(3) + " chats"@);
        assert("5 chats"@ =~= decimal(5) + " chats"@);
        assert("10 chats"@ =~= decimal(10) + " chats"@);
    }
    match n {
        0 => "Hide",
        1 => "1 chat",
        2 => "2 chats",
        3 => "3 chats",
        5 => "5 chats",
        10 => "10 chats",
        _ => "Custom",
    }
}

pub open spec fn clock_label_text(fmt: Seq<char>) -> Seq<char> {
    if fmt == clock_12h() {
        "12-hour"@
    } else if fmt == clock_24h() {
        "24-hour"@
    } else {
        "System (fallback 12h)"@
    }
}

/// The tray's name for a clock format.
pub fn clock_label(fmt: &str) -> (r: &'static str)
    ensures
        r@ == clock_label_text(fmt@),
        fmt@ == "12h"@ ==> r@ == "12-hour"@,
        fmt@ == "24h"@ ==> r@ == "24-hour"@,
        fmt@ != "12h"@ && fmt@ != "24h"@ ==> r@ == "System (fallback 12h)"@,
{
    proof {
        reveal_strlit("12h");
        reveal_strlit("24h");
        assert("12h"@ =~= clock_12h());
        assert("24h"@ =~= clock_24h());
    }
    let b: Vec<char> = vec!['1', '2', 'h'];
    let c: Vec<char> = vec!['2', '4', 'h'];
    assert(b@ =~= clock_12h());
    assert(c@ =~= clock_24h());
    if str_is(fmt, &b) {
        "12-hour"
    } else if str_is(fmt, &c) {
        "24-hour"
    } else {
        "System (fallback 12h)"
    }
}

} // verus!
