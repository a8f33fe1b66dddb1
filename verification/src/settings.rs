//! The launcher's settings, and the command lines made from them.

use vstd::prelude::*;

use crate::text::{decimal_text, truth_text};

verus! {

/// How many addresses the list of recent connections holds.
pub const MAX_RECENT: usize = 8;

/// What the user chose last.
pub struct Settings {
    pub bind: String,
    pub connect: String,
    pub fps: u32,
    pub quality: u8,
    pub skip_unchanged: bool,
    /// The addresses connected to, the latest first.
    pub recent_connects: Vec<String>,
}

/// The texts of a list of strings.
pub open spec fn texts(list: Seq<String>) -> Seq<Seq<char>> {
    list.map_values(|s: String| s@)
}

/// `recents` without the entries that are `c`.
pub open spec fn without(recents: Seq<Seq<char>>, c: Seq<char>) -> Seq<Seq<char>>
    decreases recents.len(),
{
    if recents.len() == 0 {
        Seq::empty()
    } else if recents.last() == c {
        without(recents.drop_last(), c)
    } else {
        without(recents.drop_last(), c).push(recents.last())
    }
}

/// At most the first `n` entries of `s`.
pub open spec fn at_most(s: Seq<Seq<char>>, n: int) -> Seq<Seq<char>> {
    if s.len() <= n {
        s
    } else {
        s.take(n)
    }
}

/// The list of recent connections once `c` has been connected to: without the white space around
/// it, `c` moves to the front, or comes in there at the cost of the oldest entry. A blank address
/// changes nothing.
pub open spec fn with_recent(recents: Seq<Seq<char>>, c: Seq<char>) -> Seq<Seq<char>> {
    let t = crate::text::trimmed(c);
    if t.len() == 0 {
        recents
    } else {
        at_most(seq![t] + without(recents, t), MAX_RECENT as int)
    }
}

impl Default for Settings {
    fn default() -> (res: Settings)
        ensures
            res.bind@ == "0.0.0.0:9000"@,
            res.connect@ == "127.0.0.1:9000"@,
            res.fps == 60,
            res.quality == 70,
            res.skip_unchanged,
            res.recent_connects@.len() == 0,
    {
        Settings {
            bind: String::from_str("0.0.0.0:9000"),
            connect: String::from_str("127.0.0.1:9000"),
            fps: 60,
            quality: 70,
            skip_unchanged: true,
            recent_connects: Vec::new(),
        }
    }
}

/// Whether two texts are the same.
fn same_text(a: &String, b: &String) -> (res: bool)
    ensures
        res == (a@ == b@),
{
    *a == *b
}

impl Settings {
    /// The list of recent connections.
    pub open spec fn recents(&self) -> Seq<Seq<char>> {
        texts(self.recent_connects@)
    }

    /// Notes that `c` has been connected to.
    pub fn push_recent(&mut self, c: &str)
        ensures
            final(self).recents() == with_recent(old(self).recents(), c@),
            final(self).bind == old(self).bind,
            final(self).connect == old(self).connect,
            final(self).fps == old(self).fps,
            final(self).quality == old(self).quality,
            final(self).skip_unchanged == old(self).skip_unchanged,
    {
        let t: String = String::from_str(c.trim());
        if t.as_str().is_empty() {
            return;
        }
        let ghost before = old(self).recents();
        let mut list: Vec<String> = Vec::new();
        list.push(t.clone());
        let mut i: usize = 0;
        assert(texts(list@) =~= seq![t@] + without(before.take(0), t@));
        while i < self.recent_connects.len()
            invariant
                i <= self.recent_connects@.len(),
                *self == *old(self),
                before == self.recents(),
                texts(list@) == seq![t@] + without(before.take(i as int), t@),
            decreases self.recent_connects@.len() - i,
        {
            let ghost kept = list@;
            proof {
                assert(before.take(i + 1).drop_last() =~= before.take(i as int));
                assert(before.take(i + 1).last() == self.recent_connects@[i as int]@);
            }
            if !same_text(&self.recent_connects[i], &t) {
                list.push(self.recent_connects[i].clone());
                assert(texts(list@) =~= texts(kept).push(self.recent_connects@[i as int]@));
            }
            i = i + 1;
            assert(texts(list@) =~= seq![t@] + without(before.take(i as int), t@));
        }
        assert(before.take(before.len() as int) =~= before);
        let ghost all = list@;
        list.truncate(MAX_RECENT);
        assert(texts(list@) =~= at_most(texts(all), MAX_RECENT as int));
        self.recent_connects = list;
    }
}

// ---------- command lines ----------

/// The command line that shares the screens.
pub open spec fn share_command(
    bind: Seq<char>,
    fps: u32,
    quality: u8,
    skip_unchanged: bool,
) -> Seq<Seq<char>> {
    seq![
        "share"@,
        "--bind"@,
        bind,
        "--fps"@,
        crate::text::decimal(fps as nat),
        "--quality"@,
        crate::text::decimal(quality as nat),
        "--skip-unchanged"@,
        crate::text::truth(skip_unchanged),
    ]
}

/// The command line that views a sharer's screens.
pub open spec fn view_command(connect: Seq<char>) -> Seq<Seq<char>> {
    seq!["view"@, "--connect"@, connect]
}

/// The arguments of a process that shares the screens.
pub fn share_args(bind: &str, fps: u32, quality: u8, skip_unchanged: bool) -> (res: Vec<String>)
    ensures
        texts(res@) == share_command(bind@, fps, quality, skip_unchanged),
        res@.len() == 9,
        res@[2]@ == bind@,
        crate::text::digits_value(res@[4]@) == fps,
        crate::text::digits_value(res@[6]@) == quality,
{
    let mut args: Vec<String> = Vec::new();
    args.push(String::from_str("share"));
    args.push(String::from_str("--bind"));
    args.push(String::from_str(bind));
    args.push(String::from_str("--fps"));
    args.push(decimal_text(fps as u64));
    args.push(String::from_str("--quality"));
    args.push(decimal_text(quality as u64));
    args.push(String::from_str("--skip-unchanged"));
    args.push(truth_text(skip_unchanged));
    assert(texts(args@) =~= share_command(bind@, fps, quality, skip_unchanged));
    proof {
        crate::text::law_decimal_round_trip(fps as nat);
        crate::text::law_decimal_round_trip(quality as nat);
    }
    args
}

/// The arguments of a process that views a sharer's screens.
pub fn view_args(connect: &str) -> (res: Vec<String>)
    ensures
        texts(res@) == view_command(connect@),
        res@.len() == 3,
        res@[2]@ == connect@,
{
    let mut args: Vec<String> = Vec::new();
    args.push(String::from_str("view"));
    args.push(String::from_str("--connect"));
    args.push(String::from_str(connect));
    assert(texts(args@) =~= view_command(connect@));
    args
}

// ---------- laws ----------

/// Whether no entry of a list stands in it twice.
pub open spec fn distinct(s: Seq<Seq<char>>) -> bool {
    forall|i: int, j: int| 0 <= i < j < s.len() ==> s[i] != s[j]
}

proof fn lemma_without(recents: Seq<Seq<char>>, c: Seq<char>)
    ensures
        !without(recents, c).contains(c),
        without(recents, c).len() <= recents.len(),
        forall|x: Seq<char>|
            without(recents, c).contains(x) <==> (#[trigger] recents.contains(x) && x != c),
        distinct(recents) ==> distinct(without(recents, c)),
        !recents.contains(c) ==> without(recents, c) == recents,
    decreases recents.len(),
{
    let w = without(recents, c);
    if recents.len() > 0 {
        let d = recents.drop_last();
        let wd = without(d, c);
        lemma_without(d, c);
        assert forall|x: Seq<char>| w.contains(x) <==> (#[trigger] recents.contains(x) && x
            != c) by {
            if recents.contains(x) {
                let k = choose|k: int| 0 <= k < recents.len() && recents[k] == x;
                if k < d.len() {
                    assert(d[k] == x);
                    assert(d.contains(x));
                }
            }
            if d.contains(x) {
                let k = choose|k: int| 0 <= k < d.len() && d[k] == x;
                assert(recents[k] == x);
            }
            assert(recents[recents.len() - 1] == recents.last());
            if recents.last() != c {
                if wd.contains(x) {
                    let k = choose|k: int| 0 <= k < wd.len() && wd[k] == x;
                    assert(w[k] == x);
                }
                assert(w[w.len() - 1] == recents.last());
                if w.contains(x) {
                    let k = choose|k: int| 0 <= k < w.len() && w[k] == x;
                    if k < wd.len() {
                        assert(wd[k] == x);
                    }
                }
            }
        }
        if distinct(recents) {
            assert(distinct(d));
            if recents.last() != c {
                assert forall|i: int, j: int| 0 <= i < j < w.len() implies w[i] != w[j] by {
                    if j == wd.len() {
                        assert(wd.contains(wd[i]));
                        assert(d.contains(wd[i]));
                        let k = choose|k: int| 0 <= k < d.len() && d[k] == wd[i];
                        assert(recents[k] == wd[i]);
                    }
                }
            }
        }
        if !recents.contains(c) {
            assert(recents[recents.len() - 1] != c);
            if d.contains(c) {
                let k = choose|k: int| 0 <= k < d.len() && d[k] == c;
                assert(recents[k] == c);
            }
            assert(w =~= recents);
        }
    } else {
        assert(w.len() == 0);
        assert(w =~= recents);
    }
}

/// The list of recent connections never holds an address twice and never grows beyond its
/// limit.
pub proof fn law_recents_distinct_and_bounded(recents: Seq<Seq<char>>, c: Seq<char>)
    requires
        distinct(recents),
        recents.len() <= MAX_RECENT,
    ensures
        distinct(with_recent(recents, c)),
        with_recent(recents, c).len() <= MAX_RECENT,
{
    let t = crate::text::trimmed(c);
    lemma_without(recents, t);
    let w = without(recents, t);
    let all = seq![t] + w;
    assert forall|i: int, j: int| 0 <= i < j < all.len() implies all[i] != all[j] by {
        if i == 0 {
            assert(w.contains(w[j - 1]));
        }
    }
}

/// The address connected to last is the first of the list.
pub proof fn law_recent_first(recents: Seq<Seq<char>>, c: Seq<char>)
    requires
        crate::text::trimmed(c).len() > 0,
    ensures
        with_recent(recents, c).len() > 0,
        with_recent(recents, c)[0] == crate::text::trimmed(c),
{
}

/// Connecting to the same address again changes nothing.
pub proof fn law_recent_idempotent(recents: Seq<Seq<char>>, c: Seq<char>)
    ensures
        with_recent(with_recent(recents, c), c) == with_recent(recents, c),
{
    let t = crate::text::trimmed(c);
    if t.len() > 0 {
        let w = without(recents, t);
        lemma_without(recents, t);
        let once = with_recent(recents, c);
        let rest = once.drop_first();
        assert(once =~= seq![t] + rest);
        assert(!rest.contains(t)) by {
            if rest.contains(t) {
                let k = choose|k: int| 0 <= k < rest.len() && rest[k] == t;
                assert(w[k] == t);
                assert(w.contains(t));
            }
        }
        lemma_without(rest, t);
        lemma_without_front(rest, t);
        assert(with_recent(once, c) =~= once);
    }
}

/// Removing the front entry leaves the others.
proof fn lemma_without_front(rest: Seq<Seq<char>>, t: Seq<char>)
    ensures
        without(seq![t] + rest, t) == without(rest, t),
    decreases rest.len(),
{
    let s = seq![t] + rest;
    if rest.len() == 0 {
        assert(s.drop_last() =~= Seq::empty());
        assert(s.last() == t);
        reveal_with_fuel(without, 2);
        assert(without(s, t) =~= without(rest, t));
    } else {
        assert(s.drop_last() =~= seq![t] + rest.drop_last());
        assert(s.last() == rest.last());
        lemma_without_front(rest.drop_last(), t);
    }
}

/// Behind the address connected to last stand the others, in the order they had, as many as there
/// is room for; a blank address changes nothing.
pub proof fn law_recents_keep_order(recents: Seq<Seq<char>>, c: Seq<char>)
    ensures
        ({
            let t = crate::text::trimmed(c);
            let others = recents.filter(|x: Seq<char>| x != t);
            &&& t.len() == 0 ==> with_recent(recents, c) == recents
            &&& t.len() > 0 && others.len() <= 7 ==> with_recent(recents, c) == seq![t] + others
            &&& t.len() > 0 && others.len() > 7 ==> with_recent(recents, c) == seq![t]
                + others.take(7)
        }),
{
    let t = crate::text::trimmed(c);
    let others = recents.filter(|x: Seq<char>| x != t);
    lemma_without_filter(recents, t);
    if t.len() > 0 && others.len() > 7 {
        assert(with_recent(recents, c) =~= seq![t] + others.take(7));
    }
}

proof fn lemma_without_filter(recents: Seq<Seq<char>>, c: Seq<char>)
    ensures
        without(recents, c) == recents.filter(|x: Seq<char>| x != c),
    decreases recents.len(),
{
    reveal(Seq::filter);
    if recents.len() > 0 {
        lemma_without_filter(recents.drop_last(), c);
    }
}

/// A command line names each choice behind its option: sharing, the address, the frame rate and
/// the quality in decimal, and the word for whether unchanged frames are skipped.
pub proof fn law_share_command(bind: Seq<char>, fps: u32, quality: u8, skip_unchanged: bool)
    ensures
        ({
            let c = share_command(bind, fps, quality, skip_unchanged);
            &&& c.len() == 9
            &&& c[0] == "share"@
            &&& c[1] == "--bind"@ && c[2] == bind
            &&& c[3] == "--fps"@ && c[4] == crate::text::decimal(fps as nat)
            &&& crate::text::digits_value(c[4]) == fps
            &&& c[5] == "--quality"@ && c[6] == crate::text::decimal(quality as nat)
            &&& crate::text::digits_value(c[6]) == quality
            &&& c[7] == "--skip-unchanged"@
            &&& skip_unchanged ==> c[8] == "true"@
            &&& !skip_unchanged ==> c[8] == "false"@
        }),
{
    crate::text::law_decimal_round_trip(fps as nat);
    crate::text::law_decimal_round_trip(quality as nat);
}

/// Choices that differ give command lines that differ.
pub proof fn law_share_command_injective(
    bind1: Seq<char>,
    fps1: u32,
    quality1: u8,
    skip1: bool,
    bind2: Seq<char>,
    fps2: u32,
    quality2: u8,
    skip2: bool,
)
    requires
        share_command(bind1, fps1, quality1, skip1) == share_command(bind2, fps2, quality2, skip2),
    ensures
        bind1 == bind2,
        fps1 == fps2,
        quality1 == quality2,
        skip1 == skip2,
{
    law_share_command(bind1, fps1, quality1, skip1);
    law_share_command(bind2, fps2, quality2, skip2);
    crate::text::law_truth(skip1);
    crate::text::law_truth(skip2);
    let c = share_command(bind1, fps1, quality1, skip1);
    assert(c[8] == crate::text::truth(skip1) && c[8] == crate::text::truth(skip2));
    if skip1 != skip2 {
        assert(crate::text::truth(skip1).len() != crate::text::truth(skip2).len());
    }
}

/// The command line of a viewer names the address to connect to.
pub proof fn law_view_command(connect: Seq<char>)
    ensures
        view_command(connect).len() == 3,
        view_command(connect)[0] == "view"@,
        view_command(connect)[1] == "--connect"@,
        view_command(connect)[2] == connect,
{
}

/// The texts of a list are those of its strings, in order.
pub proof fn law_texts(list: Seq<String>, i: int)
    requires
        0 <= i < list.len(),
    ensures
        texts(list).len() == list.len(),
        texts(list)[i] == list[i]@,
{
}

/// The recent connections are the addresses that the settings list, in that order.
pub proof fn law_recents_listed(settings: Settings, i: int)
    requires
        0 <= i < settings.recent_connects@.len(),
    ensures
        settings.recents().len() == settings.recent_connects@.len(),
        settings.recents()[i] == settings.recent_connects@[i]@,
{
}

} // verus!
