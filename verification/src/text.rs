//! Small texts: decimal numbers, padding, trimming, lists.

use vstd::prelude::*;

verus! {

// ---------- outside functions ----------

/// `String::push`: the character is added at the end of the text.
pub assume_specification[ String::push ](s: &mut String, c: char)
    ensures
        final(s)@ == old(s)@.push(c),
;

/// The characters with the Unicode property `White_Space`.
pub open spec fn white_space(c: char) -> bool {
    let u = c as int;
    ||| 0x9 <= u <= 0xd
    ||| u == 0x20
    ||| u == 0x85
    ||| u == 0xa0
    ||| u == 0x1680
    ||| 0x2000 <= u <= 0x200a
    ||| u == 0x2028
    ||| u == 0x2029
    ||| u == 0x202f
    ||| u == 0x205f
    ||| u == 0x3000
}

/// `char::is_whitespace`: whether the character has the Unicode property `White_Space`.
pub assume_specification[ char::is_whitespace ](c: char) -> (res: bool)
    ensures
        res == white_space(c),
;

/// `s` without the white space it starts with.
pub open spec fn trimmed_start(s: Seq<char>) -> Seq<char>
    decreases s.len(),
{
    if s.len() > 0 && white_space(s[0]) {
        trimmed_start(s.drop_first())
    } else {
        s
    }
}

/// `s` without the white space it ends with.
pub open spec fn trimmed_end(s: Seq<char>) -> Seq<char>
    decreases s.len(),
{
    if s.len() > 0 && white_space(s.last()) {
        trimmed_end(s.drop_last())
    } else {
        s
    }
}

/// `s` without the white space around it.
pub open spec fn trimmed(s: Seq<char>) -> Seq<char> {
    trimmed_end(trimmed_start(s))
}

/// `str::trim`: the text without leading and trailing white space.
pub assume_specification[ str::trim ](s: &str) -> (res: &str)
    ensures
        res@ == trimmed(s@),
;

/// Texts can be joined in any grouping.
pub proof fn lemma_join(a: Seq<char>, b: Seq<char>, c: Seq<char>)
    ensures
        (a + b) + c == a + (b + c),
{
    assert((a + b) + c =~= a + (b + c));
}

// ---------- decimal numbers ----------

/// The digit that stands for `d`.
pub open spec fn digit(d: nat) -> char
    recommends
        d < 10,
{
    (48 + d) as char
}

/// `n` in decimal, without leading zeros.
pub open spec fn decimal(n: nat) -> Seq<char>
    decreases n,
{
    if n < 10 {
        seq![digit(n)]
    } else {
        decimal(n / 10).push(digit(n % 10))
    }
}

/// Appends a number in decimal.
pub fn push_decimal(out: &mut String, n: u64)
    ensures
        final(out)@ == old(out)@ + decimal(n as nat),
    decreases n,
{
    if n >= 10 {
        push_decimal(out, n / 10);
    }
    let d: u8 = (n % 10) as u8;
    out.push((48 + d) as char);
    assert(out@ =~= old(out)@ + decimal(n as nat));
}

/// Writes a number in decimal.
pub fn decimal_text(n: u64) -> (res: String)
    ensures
        res@ == decimal(n as nat),
{
    let mut out = String::new();
    push_decimal(&mut out, n);
    assert(out@ =~= decimal(n as nat));
    out
}

/// Whether `c` is one of `0..=9`.
pub open spec fn is_digit(c: char) -> bool {
    '0' <= c && c <= '9'
}

/// The number that a row of digits stands for.
pub open spec fn digits_value(s: Seq<char>) -> nat
    decreases s.len(),
{
    if s.len() == 0 {
        0
    } else {
        (digits_value(s.drop_last()) * 10 + (s.last() as int - 48)) as nat
    }
}

/// `s` without the plus sign it may start with.
pub open spec fn without_plus(s: Seq<char>) -> Seq<char> {
    if s.len() > 0 && s[0] == '+' {
        s.drop_first()
    } else {
        s
    }
}

/// The byte that a text stands for: one or more digits, possibly behind a plus sign, of a value
/// up to 255.
pub open spec fn byte_value(s: Seq<char>) -> Option<u8> {
    let d = without_plus(s);
    if d.len() > 0 && (forall|i: int| 0 <= i < d.len() ==> is_digit(#[trigger] d[i]))
        && digits_value(d) <= 255 {
        Some(digits_value(d) as u8)
    } else {
        None
    }
}

proof fn lemma_digits_prefix(d: Seq<char>, i: int)
    requires
        0 <= i <= d.len(),
        forall|j: int| 0 <= j < d.len() ==> is_digit(#[trigger] d[j]),
    ensures
        digits_value(d.take(i)) <= digits_value(d),
    decreases d.len() - i,
{
    if i == d.len() {
        assert(d.take(i) =~= d);
    } else {
        lemma_digits_prefix(d, i + 1);
        assert(d.take(i + 1).drop_last() =~= d.take(i));
        assert(d.take(i + 1).last() == d[i]);
        assert(is_digit(d[i]));
    }
}

/// Reads a byte in decimal.
pub fn parse_byte(s: &str) -> (res: Option<u8>)
    ensures
        res == byte_value(s@),
{
    let mut value: u32 = 0;
    let mut count: usize = 0;
    let mut first: bool = true;
    let ghost d = without_plus(s@);
    let ghost skipped: int = s@.len() - d.len();
    for c in it: s.chars()
        invariant
            it.seq() == s@,
            d == without_plus(s@),
            skipped == s@.len() - d.len(),
            first == (it.index() == 0),
            count > 0 ==> it.index() > skipped,
            it.index() > skipped ==> count > 0,
            it.index() >= skipped || it.index() == 0,
            it.index() >= skipped ==> {
                &&& value == digits_value(d.take(it.index() - skipped))
                &&& forall|j: int| 0 <= j < it.index() - skipped ==> is_digit(#[trigger] d[j])
            },
            it.index() < skipped ==> value == 0,
            value <= 255,
    {
        let ghost k = it.index() as int;
        if first && c == '+' {
            first = false;
            assert(d.take(0) =~= Seq::<char>::empty());
        } else {
            assert(c == s@[k]);
            assert(d[k - skipped] == c);
            first = false;
            if c < '0' || c > '9' {
                assert(!is_digit(d[k - skipped]));
                return None;
            }
            proof {
                assert(d.take(k - skipped + 1).drop_last() =~= d.take(k - skipped));
                assert(d.take(k - skipped + 1).last() == c);
            }
            value = value * 10 + (c as u32 - 48);
            count = 1;
            if value > 255 {
                proof {
                    if forall|i: int| 0 <= i < d.len() ==> is_digit(#[trigger] d[i]) {
                        lemma_digits_prefix(d, k - skipped + 1);
                    }
                }
                return None;
            }
        }
    }
    assert(d.take(d.len() as int) =~= d);
    if count == 0 {
        None
    } else {
        Some(value as u8)
    }
}

/// A number in decimal is read back.
pub proof fn law_decimal_round_trip(n: nat)
    ensures
        decimal(n).len() > 0,
        forall|i: int| 0 <= i < decimal(n).len() ==> is_digit(#[trigger] decimal(n)[i]),
        decimal(n).len() > 1 ==> decimal(n)[0] != '0',
        digits_value(decimal(n)) == n,
        byte_value(decimal(n)) == (if n <= 255 {
            Some(n as u8)
        } else {
            None
        }),
    decreases n,
{
    let s = decimal(n);
    if n >= 10 {
        law_decimal_round_trip(n / 10);
        assert(s.drop_last() =~= decimal(n / 10));
        assert(s[0] == decimal(n / 10)[0]);
        assert(is_digit(s[0]));
        if n < 100 {
            assert(decimal(n / 10) == seq![digit(n / 10)]);
        } else {
            law_decimal_round_trip(n / 10 / 10);
            assert(decimal(n / 10).len() > 1);
        }
    } else {
        assert(s.drop_last() =~= Seq::<char>::empty());
        reveal_with_fuel(digits_value, 2);
    }
    assert(is_digit(s[0]));
    assert(without_plus(s) == s);
}

// ---------- padding and lists ----------

/// `s`, with spaces put before it up to a length of `width`.
pub open spec fn padded(s: Seq<char>, width: nat) -> Seq<char> {
    Seq::new((if s.len() < width { width - s.len() } else { 0 }) as nat, |i: int| ' ') + s
}

/// `n` with at least two digits.
pub open spec fn two_digits(n: nat) -> Seq<char> {
    if n < 10 {
        seq!['0'] + decimal(n)
    } else {
        decimal(n)
    }
}

/// Appends a text, aligned to the right of a field of the given width.
pub fn push_padded(out: &mut String, s: &str, width: usize)
    ensures
        final(out)@ == old(out)@ + padded(s@, width as nat),
{
    let len: usize = s.unicode_len();
    let mut i: usize = len;
    while i < width
        invariant
            len == s@.len(),
            len <= i,
            i <= width || i == len,
            out@ == old(out)@ + Seq::new((i - len) as nat, |i: int| ' '),
        decreases width - i,
    {
        out.push(' ');
        i = i + 1;
        assert(out@ =~= old(out)@ + Seq::new((i - len) as nat, |i: int| ' '));
    }
    out.append(s);
    assert(out@ =~= old(out)@ + padded(s@, width as nat));
}

/// Appends a number with at least two digits.
pub fn push_two_digits(out: &mut String, n: u64)
    ensures
        final(out)@ == old(out)@ + two_digits(n as nat),
{
    if n < 10 {
        out.push('0');
    }
    push_decimal(out, n);
    assert(out@ =~= old(out)@ + two_digits(n as nat));
}

/// `true` or `false` in words.
pub open spec fn truth(b: bool) -> Seq<char> {
    if b {
        "true"@
    } else {
        "false"@
    }
}

pub fn truth_text(b: bool) -> (res: String)
    ensures
        res@ == truth(b),
{
    if b {
        String::from_str("true")
    } else {
        String::from_str("false")
    }
}

/// Numbers in decimal, with `sep` between them.
pub open spec fn listed(ns: Seq<usize>, sep: Seq<char>) -> Seq<char>
    decreases ns.len(),
{
    if ns.len() == 0 {
        Seq::empty()
    } else if ns.len() == 1 {
        decimal(ns[0] as nat)
    } else {
        listed(ns.drop_last(), sep) + sep + decimal(ns.last() as nat)
    }
}

/// Appends numbers in decimal, with `sep` between them.
pub fn push_listed(out: &mut String, ns: &Vec<usize>, sep: &str)
    ensures
        final(out)@ == old(out)@ + listed(ns@, sep@),
{
    let mut i: usize = 0;
    assert(old(out)@ =~= old(out)@ + listed(ns@.take(0), sep@));
    while i < ns.len()
        invariant
            i <= ns@.len(),
            out@ == old(out)@ + listed(ns@.take(i as int), sep@),
        decreases ns@.len() - i,
    {
        if i > 0 {
            out.append(sep);
        }
        push_decimal(out, ns[i] as u64);
        assert(ns@.take(i + 1).drop_last() =~= ns@.take(i as int));
        i = i + 1;
        assert(out@ =~= old(out)@ + listed(ns@.take(i as int), sep@));
    }
    assert(ns@.take(ns@.len() as int) =~= ns@);
}

// ---------- laws ----------

/// Counting goes on digit by digit: a number below ten is one digit, and one digit more at the
/// end of a number makes ten times as much, and the digit.
pub proof fn law_decimal_next(n: nat, d: nat)
    requires
        d < 10,
    ensures
        decimal(d) == seq![(48 + d) as char],
        n > 0 ==> decimal(10 * n + d) == decimal(n).push((48 + d) as char),
{
}

/// A row of digits is read from the left: a digit behind it makes ten times as much, and the
/// digit.
pub proof fn law_digits_value(s: Seq<char>, c: char)
    requires
        '0' <= c && c <= '9',
    ensures
        digits_value(Seq::empty()) == 0,
        digits_value(s.push(c)) == 10 * digits_value(s) + (c as int - '0' as int),
{
    assert(s.push(c).drop_last() =~= s);
}

/// A byte is read from any row of digits whose number is at most 255, with or without a plus sign
/// before it.
pub proof fn law_byte_read(s: Seq<char>)
    requires
        s.len() > 0,
        forall|i: int| 0 <= i < s.len() ==> '0' <= #[trigger] s[i] && s[i] <= '9',
    ensures
        digits_value(s) <= 255 ==> byte_value(s) == Some(digits_value(s) as u8),
        digits_value(s) > 255 ==> byte_value(s) is None,
        byte_value(seq!['+'] + s) == byte_value(s),
{
    assert(s[0] != '+');
    assert(without_plus(s) == s);
    assert((seq!['+'] + s).drop_first() =~= s);
    assert(forall|i: int| 0 <= i < s.len() ==> is_digit(#[trigger] s[i]));
}

/// No byte is read from an empty text, nor from a plus sign alone, nor from a text with a
/// character that is no digit, but for the plus sign at its start.
pub proof fn law_byte_refused(s: Seq<char>, i: int)
    requires
        0 <= i < s.len(),
        s[i] < '0' || s[i] > '9',
        i > 0 || s[0] != '+' || s.len() == 1,
    ensures
        byte_value(Seq::empty()) is None,
        byte_value(s) is None,
{
    let d = without_plus(s);
    if d.len() > 0 {
        let k = i - (s.len() - d.len());
        assert(d[k] == s[i]);
        assert(!is_digit(d[k]));
    }
}

/// Trimming takes white space from both ends and nothing else, and leaves none there.
pub proof fn law_trimmed(s: Seq<char>)
    ensures
        exists|a: int, b: int|
            0 <= a <= b <= s.len() && trimmed(s) == #[trigger] s.subrange(a, b) && (forall|i: int|
                0 <= i < a || b <= i < s.len() ==> white_space(#[trigger] s[i])),
        trimmed(s).len() > 0 ==> !white_space(trimmed(s)[0]) && !white_space(trimmed(s).last()),
{
    let a = lemma_trimmed_start(s);
    let t = trimmed_start(s);
    let k = lemma_trimmed_end(t);
    let b = a + k;
    assert(trimmed(s) =~= s.subrange(a, b));
    assert forall|i: int| 0 <= i < a || b <= i < s.len() implies white_space(#[trigger] s[i]) by {
        if b <= i {
            assert(t[i - a] == s[i]);
        }
    }
    if trimmed(s).len() > 0 {
        assert(trimmed(s)[0] == t[0]);
    }
}

proof fn lemma_trimmed_start(s: Seq<char>) -> (a: int)
    ensures
        0 <= a <= s.len(),
        trimmed_start(s) == s.skip(a),
        forall|i: int| 0 <= i < a ==> white_space(#[trigger] s[i]),
        a < s.len() ==> !white_space(s[a]),
    decreases s.len(),
{
    if s.len() > 0 && white_space(s[0]) {
        let r = s.drop_first();
        let a = lemma_trimmed_start(r);
        assert(r.skip(a) =~= s.skip(a + 1));
        assert forall|i: int| 0 <= i < a + 1 implies white_space(#[trigger] s[i]) by {
            if i > 0 {
                assert(r[i - 1] == s[i]);
            }
        }
        a + 1
    } else {
        assert(s.skip(0) =~= s);
        0
    }
}

proof fn lemma_trimmed_end(s: Seq<char>) -> (b: int)
    ensures
        0 <= b <= s.len(),
        trimmed_end(s) == s.take(b),
        forall|i: int| b <= i < s.len() ==> white_space(#[trigger] s[i]),
        b > 0 ==> !white_space(s[b - 1]),
    decreases s.len(),
{
    if s.len() > 0 && white_space(s.last()) {
        let r = s.drop_last();
        let b = lemma_trimmed_end(r);
        assert(r.take(b) =~= s.take(b));
        assert forall|i: int| b <= i < s.len() implies white_space(#[trigger] s[i]) by {
            if i < r.len() {
                assert(r[i] == s[i]);
            }
        }
        b
    } else {
        assert(s.take(s.len() as int) =~= s);
        s.len() as int
    }
}

/// A space, a tab and the characters that end a line are white space; the other ASCII characters
/// are not.
pub proof fn law_white_space(c: char)
    requires
        (c as int) < 128,
    ensures
        white_space(c) <==> c == ' ' || ('\t' <= c && c <= '\r'),
{
}

/// A padded text is as wide as its field, or as the text where that is wider; the text stands at
/// its end, behind spaces.
pub proof fn law_padded(s: Seq<char>, width: nat)
    ensures
        padded(s, width).len() == (if s.len() < width {
            width
        } else {
            s.len()
        }),
        padded(s, width).skip(padded(s, width).len() - s.len()) == s,
        forall|i: int|
            0 <= i < padded(s, width).len() - s.len() ==> #[trigger] padded(s, width)[i] == ' ',
{
    assert(padded(s, width).skip(padded(s, width).len() - s.len()) =~= s);
}

/// A number with at least two digits is read as the number, and has a zero before it only where
/// it would be shorter.
pub proof fn law_two_digits(n: nat)
    ensures
        two_digits(n).len() >= 2,
        forall|i: int|
            0 <= i < two_digits(n).len() ==> '0' <= #[trigger] two_digits(n)[i] && two_digits(n)[i]
                <= '9',
        digits_value(two_digits(n)) == n,
        two_digits(n).len() > 2 ==> two_digits(n)[0] != '0',
{
    law_decimal_round_trip(n);
    if n < 10 {
        let t = two_digits(n);
        assert(t =~= seq!['0'].push(digit(n)));
        law_digits_value(Seq::empty(), '0');
        assert(Seq::<char>::empty().push('0') =~= seq!['0']);
        law_digits_value(seq!['0'], digit(n));
    } else {
        assert(decimal(n).len() >= 2) by {
            law_decimal_round_trip(n / 10);
        }
        assert(forall|i: int| 0 <= i < decimal(n).len() ==> is_digit(#[trigger] decimal(n)[i]));
    }
}

/// A truth value is a word.
pub proof fn law_truth(b: bool)
    ensures
        b ==> truth(b) == seq!['t', 'r', 'u', 'e'],
        !b ==> truth(b) == seq!['f', 'a', 'l', 's', 'e'],
{
    reveal_strlit("true");
    reveal_strlit("false");
    assert("true"@ =~= seq!['t', 'r', 'u', 'e']);
    assert("false"@ =~= seq!['f', 'a', 'l', 's', 'e']);
}

/// The fields of a text: what stands before, between and behind the characters `sep`.
pub open spec fn fields(s: Seq<char>, sep: char) -> Seq<Seq<char>>
    decreases s.len(),
{
    if s.len() == 0 {
        seq![Seq::empty()]
    } else {
        let before = fields(s.drop_last(), sep);
        if s.last() == sep {
            before.push(Seq::empty())
        } else {
            before.drop_last().push(before.last().push(s.last()))
        }
    }
}

/// A text without `sep` is one field; `sep` and another such text behind a text make one field
/// more.
pub proof fn law_fields(s: Seq<char>, sep: char, t: Seq<char>)
    requires
        forall|i: int| 0 <= i < t.len() ==> #[trigger] t[i] != sep,
    ensures
        fields(s, sep).len() > 0,
        fields(t, sep) == seq![t],
        fields(s + seq![sep] + t, sep) == fields(s, sep).push(t),
    decreases s.len() + t.len(),
{
    if t.len() == 0 {
        assert(t =~= Seq::empty());
        assert(s + seq![sep] + t =~= s.push(sep));
        assert(s.push(sep).drop_last() =~= s);
        if s.len() > 0 {
            law_fields(s.drop_last(), sep, t);
        }
        assert(fields(t, sep) =~= seq![t]);
    } else {
        let u = t.drop_last();
        assert(forall|i: int| 0 <= i < u.len() ==> u[i] == #[trigger] t[i]);
        law_fields(s, sep, u);
        let all = s + seq![sep] + t;
        assert(all.drop_last() =~= s + seq![sep] + u);
        assert(all.last() == t.last());
        assert(t.last() == t[t.len() - 1]);
        assert(u.push(t.last()) =~= t);
        assert(fields(t, sep) =~= seq![t]);
        assert(fields(all, sep) =~= fields(s, sep).push(t));
    }
}

/// A list reads back: it has a field for each number, in order, and the field is a row of digits
/// whose value is the number. A list of no numbers is empty.
pub proof fn law_listed(ns: Seq<usize>, sep: char)
    requires
        sep < '0' || sep > '9',
    ensures
        ns.len() == 0 ==> listed(ns, seq![sep]).len() == 0,
        ns.len() > 0 ==> {
            let f = fields(listed(ns, seq![sep]), sep);
            &&& f.len() == ns.len()
            &&& forall|i: int| 0 <= i < ns.len() ==> #[trigger] f[i] == decimal(ns[i] as nat)
            &&& forall|i: int| 0 <= i < ns.len() ==> digits_value(#[trigger] f[i]) == ns[i]
        },
    decreases ns.len(),
{
    if ns.len() > 0 {
        let d = decimal(ns.last() as nat);
        law_decimal_round_trip(ns.last() as nat);
        assert forall|i: int| 0 <= i < d.len() implies #[trigger] d[i] != sep by {
            assert(is_digit(d[i]));
        }
        let r = ns.drop_last();
        law_listed(r, sep);
        law_fields(listed(r, seq![sep]), sep, d);
        let f = fields(listed(ns, seq![sep]), sep);
        if ns.len() == 1 {
            assert(f == seq![d]);
        } else {
            let g = fields(listed(r, seq![sep]), sep);
            assert(f == g.push(d));
            assert forall|i: int| 0 <= i < ns.len() implies #[trigger] f[i] == decimal(
                ns[i] as nat,
            ) by {
                if i < r.len() {
                    assert(f[i] == g[i]);
                    assert(r[i] == ns[i]);
                }
            }
        }
        assert forall|i: int| 0 <= i < ns.len() implies digits_value(#[trigger] f[i]) == ns[i] by {
            law_decimal_round_trip(ns[i] as nat);
        }
    }
}

/// Whatever stands between the numbers: a list of one number is the number, and two lists, none
/// of them empty, are joined by it.
pub proof fn law_listed_joined(ms: Seq<usize>, ns: Seq<usize>, sep: Seq<char>)
    requires
        ms.len() > 0,
        ns.len() > 0,
    ensures
        ms.len() == 1 ==> listed(ms, sep) == decimal(ms[0] as nat),
        listed(ms + ns, sep) == listed(ms, sep) + sep + listed(ns, sep),
    decreases ns.len(),
{
    let all = ms + ns;
    assert(all.drop_last() =~= ms + ns.drop_last());
    assert(all.last() == ns.last());
    if ns.len() == 1 {
        assert(ms + ns.drop_last() =~= ms);
    } else {
        law_listed_joined(ms, ns.drop_last(), sep);
        let m = listed(ms, sep);
        let n = listed(ns.drop_last(), sep);
        let d = decimal(ns.last() as nat);
        assert(m + sep + n + sep + d =~= m + sep + (n + sep + d));
    }
}

} // verus!
