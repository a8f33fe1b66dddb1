//! Reading back the reports that a session prints.

use vstd::prelude::*;

use crate::text::parse_byte;

verus! {

/// One monitor's part of a report: its number, its frames and its kilobytes per second.
pub const STAT_PATTERN: &'static str = "m(\\d+):\\s*([0-9.]+)fps\\s+([0-9.]+)KB/s";

/// The groups of the matches of a regular expression with three groups, in the order in which
/// the matches stand in `line`.
pub uninterp spec fn captures_of(pattern: Seq<char>, line: Seq<char>) -> Seq<
    (Seq<char>, Seq<char>, Seq<char>),
>;

/// The texts of a row of matches.
pub open spec fn group_texts(groups: Seq<(String, String, String)>) -> Seq<
    (Seq<char>, Seq<char>, Seq<char>),
> {
    groups.map_values(|g: (String, String, String)| (g.0@, g.1@, g.2@))
}

/// Whether `s` is one or more digits and points.
pub open spec fn is_rate(s: Seq<char>) -> bool {
    s.len() > 0 && forall|i: int|
        0 <= i < s.len() ==> crate::text::is_digit(#[trigger] s[i]) || s[i] == '.'
}

/// Whether a report of `stats` behind `tag` can be told apart: the rates are numbers, and the
/// tag holds no `m`, with which a match starts.
pub open spec fn is_report(tag: Seq<char>, stats: Seq<crate::traffic::Stat>) -> bool {
    &&& !tag.contains('m')
    &&& forall|i: int|
        0 <= i < stats.len() ==> is_rate((#[trigger] stats[i]).1) && is_rate(stats[i].2)
}

/// `Regex::captures_iter` of the crate regex, for [`STAT_PATTERN`]: the groups of its matches
/// depend on the pattern and the line alone, and in a report they are the monitors' numbers and
/// rates, without the padding, in order. What is matched in other lines is not spelled out.
#[verifier::external_body]
fn captures(pattern: &str, line: &str) -> (res: Vec<(String, String, String)>)
    requires
        pattern@ == STAT_PATTERN@,
    ensures
        group_texts(res@) == captures_of(pattern@, line@),
        forall|tag: Seq<char>, stats: Seq<crate::traffic::Stat>|
            is_report(tag, stats) && line@ == #[trigger] crate::traffic::report_text(tag, stats)
                ==> group_texts(res@) == stats.map_values(
                |s: crate::traffic::Stat| (crate::text::decimal(s.0), s.1, s.2),
            ),
{
    regex::Regex::new(pattern)
        .unwrap()
        .captures_iter(line)
        .map(|c| (c[1].to_string(), c[2].to_string(), c[3].to_string()))
        .collect()
}

/// One monitor's rates as they were read; the rates are still texts.
pub struct StatUpdate {
    pub id: u8,
    pub fps: String,
    pub kbps: String,
}

impl StatUpdate {
    pub open spec fn update(self) -> (u8, Seq<char>, Seq<char>) {
        (self.id, self.fps@, self.kbps@)
    }
}

/// What a match says: a number that is no byte counts as 0.
pub open spec fn update_of(groups: (Seq<char>, Seq<char>, Seq<char>)) -> (
    u8,
    Seq<char>,
    Seq<char>,
) {
    (
        match crate::text::byte_value(groups.0) {
            Some(id) => id,
            None => 0,
        },
        groups.1,
        groups.2,
    )
}

/// What a row of updates says.
pub open spec fn updates_of(updates: Seq<StatUpdate>) -> Seq<(u8, Seq<char>, Seq<char>)> {
    updates.map_values(|u: StatUpdate| u.update())
}

/// The updates that the groups of a row of matches stand for.
pub fn updates_from(groups: Vec<(String, String, String)>) -> (res: Vec<StatUpdate>)
    ensures
        updates_of(res@) == group_texts(groups@).map_values(
            |g: (Seq<char>, Seq<char>, Seq<char>)| update_of(g),
        ),
        res@.len() == groups@.len(),
        forall|i: int|
            0 <= i < res@.len() ==> (#[trigger] res@[i]).fps@ == groups@[i].1@ && res@[i].kbps@
                == groups@[i].2@ && res@[i].id == (match crate::text::byte_value(groups@[i].0@) {
                Some(id) => id,
                None => 0,
            }),
{
    let mut out: Vec<StatUpdate> = Vec::new();
    let ghost wanted = group_texts(groups@).map_values(
        |g: (Seq<char>, Seq<char>, Seq<char>)| update_of(g),
    );
    let mut i: usize = 0;
    while i < groups.len()
        invariant
            i <= groups@.len(),
            wanted == group_texts(groups@).map_values(
                |g: (Seq<char>, Seq<char>, Seq<char>)| update_of(g),
            ),
            out@.len() == i,
            forall|j: int| 0 <= j < i ==> (#[trigger] out@[j]).update() == wanted[j],
            forall|j: int|
                0 <= j < i ==> (#[trigger] out@[j]).fps@ == groups@[j].1@ && out@[j].kbps@
                    == groups@[j].2@ && out@[j].id == (match crate::text::byte_value(
                    groups@[j].0@,
                ) {
                    Some(id) => id,
                    None => 0,
                }),
        decreases groups@.len() - i,
    {
        let g = &groups[i];
        let id: u8 = match parse_byte(g.0.as_str()) {
            Some(id) => id,
            None => 0,
        };
        out.push(StatUpdate { id, fps: g.1.clone(), kbps: g.2.clone() });
        i = i + 1;
    }
    assert(updates_of(out@) =~= wanted);
    out
}

/// The rates that a line of output reports. A report that was printed is read back monitor by
/// monitor.
pub fn parse_stats(line: &str) -> (res: Vec<StatUpdate>)
    ensures
        updates_of(res@) == captures_of(STAT_PATTERN@, line@).map_values(
            |g: (Seq<char>, Seq<char>, Seq<char>)| update_of(g),
        ),
        forall|tag: Seq<char>, stats: Seq<crate::traffic::Stat>|
            is_report(tag, stats) && line@ == #[trigger] crate::traffic::report_text(tag, stats)
                ==> updates_of(res@) == stats.map_values(
                |s: crate::traffic::Stat|
                    (
                        (if s.0 <= 255 {
                            s.0
                        } else {
                            0
                        }) as u8,
                        s.1,
                        s.2,
                    ),
            ),
{
    let groups = captures(STAT_PATTERN, line);
    let ghost texts = group_texts(groups@);
    let res = updates_from(groups);
    proof {
        assert forall|tag: Seq<char>, stats: Seq<crate::traffic::Stat>|
            is_report(tag, stats) && line@ == #[trigger] crate::traffic::report_text(
                tag,
                stats,
            ) implies updates_of(res@) == stats.map_values(
            |s: crate::traffic::Stat|
                (
                    (if s.0 <= 255 {
                        s.0
                    } else {
                        0
                    }) as u8,
                    s.1,
                    s.2,
                ),
        ) by {
            let wanted = stats.map_values(
                |s: crate::traffic::Stat|
                    (
                        (if s.0 <= 255 {
                            s.0
                        } else {
                            0
                        }) as u8,
                        s.1,
                        s.2,
                    ),
            );
            assert forall|i: int| 0 <= i < stats.len() implies #[trigger] updates_of(res@)[i]
                == wanted[i] by {
                crate::text::law_decimal_round_trip(stats[i].0);
                assert(texts[i] == (crate::text::decimal(stats[i].0), stats[i].1, stats[i].2));
            }
            assert(updates_of(res@) =~= wanted);
        }
    }
    res
}

// ---------- laws ----------

/// A match keeps its rates as they are, and its number, if that is a byte in decimal; a number
/// beyond 255 counts as 0.
pub proof fn law_update(n: nat, fps: Seq<char>, kbps: Seq<char>)
    ensures
        n <= 255 ==> update_of((crate::text::decimal(n), fps, kbps)) == (n as u8, fps, kbps),
        n > 255 ==> update_of((crate::text::decimal(n), fps, kbps)) == (0u8, fps, kbps),
{
    crate::text::law_decimal_round_trip(n);
}

/// Updates say the same as the matches, one by one and in order.
pub proof fn law_updates_in_order(updates: Seq<StatUpdate>, i: int)
    requires
        0 <= i < updates.len(),
    ensures
        updates_of(updates).len() == updates.len(),
        updates_of(updates)[i] == (updates[i].id, updates[i].fps@, updates[i].kbps@),
{
}

/// Rates that are numbers, behind a tag without an `m`, make a report that can be told apart.
pub proof fn law_is_report(tag: Seq<char>, stats: Seq<crate::traffic::Stat>)
    requires
        forall|i: int| 0 <= i < tag.len() ==> #[trigger] tag[i] != 'm',
        forall|i: int|
            0 <= i < stats.len() ==> (#[trigger] stats[i]).1.len() > 0 && stats[i].2.len() > 0,
        forall|i: int, j: int|
            0 <= i < stats.len() && 0 <= j < stats[i].1.len() ==> #[trigger] stats[i].1[j] == '.'
                || ('0' <= stats[i].1[j] && stats[i].1[j] <= '9'),
        forall|i: int, j: int|
            0 <= i < stats.len() && 0 <= j < stats[i].2.len() ==> #[trigger] stats[i].2[j] == '.'
                || ('0' <= stats[i].2[j] && stats[i].2[j] <= '9'),
    ensures
        is_report(tag, stats),
{
}

/// The texts of matches are those of their groups, in order.
pub proof fn law_group_texts(groups: Seq<(String, String, String)>, i: int)
    requires
        0 <= i < groups.len(),
    ensures
        group_texts(groups).len() == groups.len(),
        group_texts(groups)[i] == (groups[i].0@, groups[i].1@, groups[i].2@),
{
}

} // verus!
