use vstd::prelude::*;

use crate::settings::{
    clock_choices, clock_choices_list, contains_i64, recent_chats_choices, recent_chats_choices_list,
    refresh_choices, refresh_choices_secs, signed_decimal, signed_decimal_chars,
};
use crate::text::{
    chars_eq, chars_of, decimal, is_digit, lemma_decimal_roundtrip, occurs_at, occurs_at_exec,
    parse_i64_range, parse_i64_spec, slice_of, string_of,
    unsigned_digits,
};

verus! {

pub open spec fn refresh_prefix() -> Seq<char> {
    seq!['r', 'e', 'f', 'r', 'e', 's', 'h', '_', 'e', 'v', 'e', 'r', 'y', '_']
}

pub open spec fn recent_prefix() -> Seq<char> {
    seq!['r', 'e', 'c', 'e', 'n', 't', '_', 'c', 'h', 'a', 't', 's', '_']
}

pub open spec fn clock_prefix() -> Seq<char> {
    seq!['c', 'l', 'o', 'c', 'k', '_']
}

/// `str::trim_start_matches` with a string pattern: every leading repetition
/// of `pat` removed.
pub open spec fn trim_start_seq(s: Seq<char>, pat: Seq<char>) -> Seq<char>
    decreases s.len(),
{
    if pat.len() > 0 && occurs_at(s, pat, 0) {
        trim_start_seq(s.skip(pat.len() as int), pat)
    } else {
        s
    }
}

/// A tray item that sets the refresh interval to an offered choice.
pub open spec fn refresh_request(id: Seq<char>) -> Option<i64> {
    if occurs_at(id, refresh_prefix(), 0) {
        match parse_i64_spec(trim_start_seq(id, refresh_prefix())) {
            Some(v) => if refresh_choices().contains(v as i64) {
                Some(v as i64)
            } else {
                None
            },
            None => None,
        }
    } else {
        None
    }
}

/// A tray item that sets the recent-chats count to an offered choice.
pub open spec fn recent_request(id: Seq<char>) -> Option<i64> {
    if !occurs_at(id, refresh_prefix(), 0) && occurs_at(id, recent_prefix(), 0) {
        match parse_i64_spec(trim_start_seq(id, recent_prefix())) {
            Some(v) => if recent_chats_choices().contains(v as i64) {
                Some(v as i64)
            } else {
                None
            },
            None => None,
        }
    } else {
        None
    }
}

/// A tray item that sets the clock format to an offered choice.
pub open spec fn clock_request(id: Seq<char>) -> Option<Seq<char>> {
    if !occurs_at(id, refresh_prefix(), 0) && !occurs_at(id, recent_prefix(), 0) && occurs_at(
        id,
        clock_prefix(),
        0,
    ) {
        let f = trim_start_seq(id, clock_prefix());
        if clock_choices().contains(f) {
            Some(f)
        } else {
            None
        }
    } else {
        None
    }
}

pub open spec fn show_id() -> Seq<char> {
    seq!['s', 'h', 'o', 'w']
}

pub open spec fn hide_id() -> Seq<char> {
    seq!['h', 'i', 'd', 'e']
}

pub open spec fn chart_id() -> Seq<char> {
    seq!['c', 'h', 'a', 'r', 't']
}

pub open spec fn refresh_id() -> Seq<char> {
    seq!['r', 'e', 'f', 'r', 'e', 's', 'h']
}

pub open spec fn autostart_id() -> Seq<char> {
    seq!['a', 'u', 't', 'o', 's', 't', 'a', 'r', 't']
}

pub open spec fn quit_id() -> Seq<char> {
    seq!['q', 'u', 'i', 't']
}

/// What a click on a tray menu item asks for.
pub enum MenuAction {
    ShowOverlay,
    HideOverlay,
    ToggleChart,
    RefreshNow,
    ToggleAutostart,
    Quit,
    SetRefreshSecs(i64),
    SetRecentChats(i64),
    SetClockFormat(String),
    /// An item that asks for nothing (or for a choice that is not offered).
    Ignore,
}


/// Start of `s` once every leading repetition of `pat` is removed.
fn trim_start_pat(s: &Vec<char>, pat: &Vec<char>) -> (i: usize)
    requires
        pat.len() > 0,
    ensures
        i <= s.len(),
        s@.subrange(i as int, s.len() as int) == trim_start_seq(s@, pat@),
{
    let mut i: usize = 0;
    assert(s@.subrange(0, s.len() as int) =~= s@);
    while occurs_at_exec(s, pat.as_slice(), i)
        invariant
            i <= s.len(),
            pat.len() > 0,
            trim_start_seq(s@, pat@) == trim_start_seq(s@.subrange(i as int, s.len() as int), pat@),
        decreases s.len() - i,
    {
        let ghost t = s@.subrange(i as int, s.len() as int);
        assert(t.subrange(0, pat@.len() as int) =~= s@.subrange(i as int, i + pat.len()));
        assert(t.skip(pat.len() as int) =~= s@.subrange(i + pat.len(), s.len() as int));
        i = i + pat.len();
    }
    proof {
        let t = s@.subrange(i as int, s.len() as int);
        if occurs_at(t, pat@, 0) {
            assert(t.subrange(0, pat@.len() as int) =~= s@.subrange(i as int, i + pat.len()));
        }
    }
    i
}

fn chars_is(cs: &Vec<char>, lit: &Vec<char>) -> (r: bool)
    ensures
        r == (cs@ == lit@),
{
    chars_eq(cs, lit)
}

/// What a click on the tray menu item `id` asks for.
pub fn menu_action(id: &str) -> (r: MenuAction)
    ensures
        r is ShowOverlay <==> id@ == show_id(),
        r is HideOverlay <==> id@ == hide_id(),
        r is ToggleChart <==> id@ == chart_id(),
        r is RefreshNow <==> id@ == refresh_id(),
        r is ToggleAutostart <==> id@ == autostart_id(),
        r is Quit <==> id@ == quit_id(),
        r is SetRefreshSecs <==> refresh_request(id@) is Some,
        r matches MenuAction::SetRefreshSecs(v) ==> refresh_request(id@) == Some(v),
        r is SetRecentChats <==> recent_request(id@) is Some,
        r matches MenuAction::SetRecentChats(v) ==> recent_request(id@) == Some(v),
        r is SetClockFormat <==> clock_request(id@) is Some,
        r matches MenuAction::SetClockFormat(f) ==> clock_request(id@) == Some(f@),
{
    let cs = chars_of(id);
    let show: Vec<char> = vec!['s', 'h', 'o', 'w'];
    let hide: Vec<char> = vec!['h', 'i', 'd', 'e'];
    let chart: Vec<char> = vec!['c', 'h', 'a', 'r', 't'];
    let refresh: Vec<char> = vec!['r', 'e', 'f', 'r', 'e', 's', 'h'];
    let autostart: Vec<char> = vec!['a', 'u', 't', 'o', 's', 't', 'a', 'r', 't'];
    let quit: Vec<char> = vec!['q', 'u', 'i', 't'];
    let rp: Vec<char> = vec!['r', 'e', 'f', 'r', 'e', 's', 'h', '_', 'e', 'v', 'e', 'r', 'y', '_'];
    let cp: Vec<char> = vec!['r', 'e', 'c', 'e', 'n', 't', '_', 'c', 'h', 'a', 't', 's', '_'];
    let kp: Vec<char> = vec!['c', 'l', 'o', 'c', 'k', '_'];
    assert(show@ =~= show_id());
    assert(hide@ =~= hide_id());
    assert(chart@ =~= chart_id());
    assert(refresh@ =~= refresh_id());
    assert(autostart@ =~= autostart_id());
    assert(quit@ =~= quit_id());
    assert(rp@ =~= refresh_prefix());
    assert(cp@ =~= recent_prefix());
    assert(kp@ =~= clock_prefix());
    // the plain items never start like the choice items
    proof {
        lemma_names_are_not_choices(id@);
    }
    if chars_is(&cs, &show) {
        return MenuAction::ShowOverlay;
    }
    if chars_is(&cs, &hide) {
        return MenuAction::HideOverlay;
    }
    if chars_is(&cs, &chart) {
        return MenuAction::ToggleChart;
    }
    if chars_is(&cs, &refresh) {
        return MenuAction::RefreshNow;
    }
    if chars_is(&cs, &autostart) {
        return MenuAction::ToggleAutostart;
    }
    if chars_is(&cs, &quit) {
        return MenuAction::Quit;
    }
    if occurs_at_exec(&cs, rp.as_slice(), 0) {
        let i = trim_start_pat(&cs, &rp);
        match parse_i64_range(&cs, i, cs.len()) {
            Some(v) => {
                let choices = refresh_choices_secs();
                if contains_i64(&choices, v) {
                    return MenuAction::SetRefreshSecs(v);
                }
            },
            None => {},
        }
        return MenuAction::Ignore;
    }
    if occurs_at_exec(&cs, cp.as_slice(), 0) {
        let i = trim_start_pat(&cs, &cp);
        match parse_i64_range(&cs, i, cs.len()) {
            Some(v) => {
                let choices = recent_chats_choices_list();
                if contains_i64(&choices, v) {
                    return MenuAction::SetRecentChats(v);
                }
            },
            None => {},
        }
        return MenuAction::Ignore;
    }
    if occurs_at_exec(&cs, kp.as_slice(), 0) {
        let i = trim_start_pat(&cs, &kp);
        let f = slice_of(&cs, i, cs.len());
        if is_clock_choice(&f) {
            return MenuAction::SetClockFormat(string_of(f.as_slice()));
        }
        return MenuAction::Ignore;
    }
    MenuAction::Ignore
}

/// Whether `f` is one of the offered clock formats.
fn is_clock_choice(f: &Vec<char>) -> (r: bool)
    ensures
        r == clock_choices().contains(f@),
{
    let choices = clock_choices_list();
    let mut k: usize = 0;
    while k < 3
        invariant
            k <= 3,
            choices.len() == 3,
            forall|q: int| 0 <= q < 3 ==> (#[trigger] choices@[q])@ == clock_choices()[q],
            forall|q: int| 0 <= q < k ==> clock_choices()[q] != f@,
        decreases 3 - k,
    {
        let c = chars_of(choices[k].as_str());
        if chars_eq(&c, f) {
            assert(clock_choices()[k as int] == f@);
            return true;
        }
        k = k + 1;
    }
    false
}

/// None of the plain item names starts like a choice item.
proof fn lemma_names_are_not_choices(id: Seq<char>)
    ensures
        id == show_id() || id == hide_id() || id == chart_id() || id == refresh_id() || id
            == autostart_id() || id == quit_id() ==> !occurs_at(id, refresh_prefix(), 0)
            && !occurs_at(id, recent_prefix(), 0) && !occurs_at(id, clock_prefix(), 0),
{
    if id == autostart_id() || id == refresh_id() {
        assert(id.subrange(0, 6)[0] != clock_prefix()[0]);
    }
    if id == refresh_id() {
        assert(id.len() < refresh_prefix().len() && id.len() < recent_prefix().len());
    }
}


// ---------------------------------------------------------------------------
// Item ids
// ---------------------------------------------------------------------------

fn join_chars(prefix: &Vec<char>, tail: &Vec<char>) -> (r: String)
    ensures
        r@ == prefix@ + tail@,
{
    let mut cs: Vec<char> = Vec::new();
    let mut k: usize = 0;
    while k < prefix.len()
        invariant
            k <= prefix.len(),
            cs@ == prefix@.take(k as int),
        decreases prefix.len() - k,
    {
        cs.push(prefix[k]);
        assert(prefix@.take(k + 1) =~= prefix@.take(k as int).push(prefix@[k as int]));
        k = k + 1;
    }
    let mut j: usize = 0;
    assert(prefix@.take(prefix.len() as int) =~= prefix@);
    while j < tail.len()
        invariant
            j <= tail.len(),
            cs@ == prefix@ + tail@.take(j as int),
        decreases tail.len() - j,
    {
        cs.push(tail[j]);
        assert(tail@.take(j + 1) =~= tail@.take(j as int).push(tail@[j as int]));
        j = j + 1;
    }
    assert(tail@.take(tail.len() as int) =~= tail@);
    string_of(cs.as_slice())
}

/// Id of the tray item for a refresh interval: `refresh_every_<secs>`.
pub fn refresh_item_id(secs: i64) -> (r: String)
    ensures
        r@ == refresh_prefix() + signed_decimal(secs as int),
{
    let rp: Vec<char> = vec!['r', 'e', 'f', 'r', 'e', 's', 'h', '_', 'e', 'v', 'e', 'r', 'y', '_'];
    assert(rp@ =~= refresh_prefix());
    join_chars(&rp, &signed_decimal_chars(secs))
}

/// Id of the tray item for a recent-chats count: `recent_chats_<n>`.
pub fn recent_item_id(n: i64) -> (r: String)
    ensures
        r@ == recent_prefix() + signed_decimal(n as int),
{
    let cp: Vec<char> = vec!['r', 'e', 'c', 'e', 'n', 't', '_', 'c', 'h', 'a', 't', 's', '_'];
    assert(cp@ =~= recent_prefix());
    join_chars(&cp, &signed_decimal_chars(n))
}

/// Id of the tray item for a clock format: `clock_<format>`.
pub fn clock_item_id(fmt: &str) -> (r: String)
    ensures
        r@ == clock_prefix() + fmt@,
{
    let kp: Vec<char> = vec!['c', 'l', 'o', 'c', 'k', '_'];
    assert(kp@ =~= clock_prefix());
    join_chars(&kp, &chars_of(fmt))
}

proof fn lemma_signed_roundtrip(x: int)
    requires
        i64::MIN <= x <= i64::MAX,
    ensures
        parse_i64_spec(signed_decimal(x)) == Some(x),
        signed_decimal(x).len() > 0,
        signed_decimal(x)[0] == '-' || is_digit(signed_decimal(x)[0]),
{
    if x < 0 {
        let d = decimal((-x) as nat);
        lemma_decimal_roundtrip((-x) as nat);
        let s = seq!['-'] + d;
        assert(s.drop_first() =~= d);
    } else {
        lemma_decimal_roundtrip(x as nat);
        let d = decimal(x as nat);
        assert(unsigned_digits(d) == d);
    }
}

proof fn lemma_trim_prefix_once(p: Seq<char>, x: Seq<char>)
    requires
        p.len() > 0,
        x.len() > 0,
        x[0] != p[0],
    ensures
        trim_start_seq(p + x, p) == x,
        occurs_at(p + x, p, 0),
{
    let s = p + x;
    assert(s.subrange(0, p.len() as int) =~= p);
    assert(s.skip(p.len() as int) =~= x);
    if occurs_at(x, p, 0) {
        assert(x.subrange(0, p.len() as int)[0] == x[0]);
    }
    assert(!occurs_at(x, p, 0));
    assert(trim_start_seq(x, p) == x);
    assert(trim_start_seq(s, p) == trim_start_seq(s.skip(p.len() as int), p));
}

/// Clicking the tray item made for an offered refresh interval asks for
/// exactly that interval.
pub proof fn lemma_refresh_item_roundtrip(secs: i64)
    requires
        refresh_choices().contains(secs),
    ensures
        refresh_request(refresh_prefix() + signed_decimal(secs as int)) == Some(secs),
{
    lemma_signed_roundtrip(secs as int);
    lemma_trim_prefix_once(refresh_prefix(), signed_decimal(secs as int));
}

/// Clicking the tray item made for an offered recent-chats count asks for
/// exactly that count.
pub proof fn lemma_recent_item_roundtrip(n: i64)
    requires
        recent_chats_choices().contains(n),
    ensures
        recent_request(recent_prefix() + signed_decimal(n as int)) == Some(n),
{
    lemma_signed_roundtrip(n as int);
    lemma_trim_prefix_once(recent_prefix(), signed_decimal(n as int));
    let id = recent_prefix() + signed_decimal(n as int);
    assert(id.subrange(0, refresh_prefix().len() as int)[2] != refresh_prefix()[2]);
}

/// Clicking the tray item made for an offered clock format asks for exactly
/// that format.
pub proof fn lemma_clock_item_roundtrip(fmt: Seq<char>)
    requires
        clock_choices().contains(fmt),
    ensures
        clock_request(clock_prefix() + fmt) == Some(fmt),
{
    let i = choose|i: int| 0 <= i < 3 && clock_choices()[i] == fmt;
    assert(fmt.len() > 0);
    assert(fmt[0] != 'c') by {
        assert(i == 0 || i == 1 || i == 2);
    }
    lemma_trim_prefix_once(clock_prefix(), fmt);
    let id = clock_prefix() + fmt;
    assert(id[0] == 'c');
    if id.len() >= refresh_prefix().len() {
        assert(id.subrange(0, refresh_prefix().len() as int)[0] != refresh_prefix()[0]);
    }
    if id.len() >= recent_prefix().len() {
        assert(id.subrange(0, recent_prefix().len() as int)[0] != recent_prefix()[0]);
    }
}

} // verus!
