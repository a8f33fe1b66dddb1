//! Session codes: an IPv4 address and a port as ten symbols, written `XXXXX-XXXXX`.
//!
//! The alphabet leaves out the glyphs that are easily confused: `0`, `1`, `I` and `O`.

use vstd::prelude::*;

use crate::text::push_decimal;

verus! {

// ---------- alphabet ----------

/// The symbol that stands for the five-bit value `k`, as a code point.
pub open spec fn symbol_code(k: int) -> int {
    if k < 8 {
        65 + k  // A..=H
    } else if k < 13 {
        66 + k  // J..=N
    } else if k < 24 {
        67 + k  // P..=Z
    } else {
        26 + k  // 2..=9
    }
}

/// The symbol that stands for the five-bit value `k`.
pub open spec fn symbol(k: int) -> char {
    symbol_code(k) as char
}

/// Whether `c` is one of the 32 symbols.
pub open spec fn in_alphabet(c: char) -> bool {
    exists|k: int| 0 <= k < 32 && c == #[trigger] symbol(k)
}

/// `c`, or its upper-case form when it is one of `a..=z`.
pub open spec fn upper_code(c: char) -> int {
    if 'a' <= c && c <= 'z' {
        c as int - 32
    } else {
        c as int
    }
}

/// The value that `c` stands for, upper and lower case alike. Only the low byte of the
/// character counts.
pub open spec fn symbol_value(c: char) -> Option<int> {
    let b = upper_code(c) % 256;
    if 65 <= b <= 72 {
        Some(b - 65)
    } else if 74 <= b <= 78 {
        Some(b - 66)
    } else if 80 <= b <= 90 {
        Some(b - 67)
    } else if 50 <= b <= 57 {
        Some(b - 26)
    } else {
        None
    }
}

fn symbol_at(k: u8) -> (c: char)
    requires
        k < 32,
    ensures
        c == symbol(k as int),
{
    let b: u8 = if k < 8 {
        65 + k
    } else if k < 13 {
        66 + k
    } else if k < 24 {
        67 + k
    } else {
        26 + k
    };
    b as char
}

/// The value that `c` stands for in a code, if any.
pub fn idx_of(c: char) -> (res: Option<u32>)
    ensures
        match res {
            Some(k) => symbol_value(c) == Some(k as int),
            None => symbol_value(c) is None,
        },
{
    let u: u32 = c as u32;
    let up: u32 = if 'a' <= c && c <= 'z' {
        u - 32
    } else {
        u
    };
    let b: u32 = up % 256;
    if 65 <= b && b <= 72 {
        Some(b - 65)
    } else if 74 <= b && b <= 78 {
        Some(b - 66)
    } else if 80 <= b && b <= 90 {
        Some(b - 67)
    } else if 50 <= b && b <= 57 {
        Some(b - 26)
    } else {
        None
    }
}

// ---------- numbers ----------

/// The last `n` digits of `m` in base 32, the most significant one first.
pub open spec fn digits32(m: nat, n: nat) -> Seq<int>
    decreases n,
{
    if n == 0 {
        Seq::empty()
    } else {
        digits32(m / 32, (n - 1) as nat).push((m % 32) as int)
    }
}

/// The number that base-32 digits stand for.
pub open spec fn value32(d: Seq<int>) -> int
    decreases d.len(),
{
    if d.len() == 0 {
        0
    } else {
        value32(d.drop_last()) * 32 + d.last()
    }
}

/// An address and a port as one 48-bit number, the first octet being the most significant.
pub open spec fn address_value(ip: Seq<u8>, port: u16) -> nat {
    (ip[0] * 0x100_0000_0000 + ip[1] * 0x1_0000_0000 + ip[2] * 0x100_0000 + ip[3] * 0x1_0000
        + port) as nat
}

/// The code of an address and a port: the 48-bit number, two zero bits behind it, as ten
/// symbols of five bits, with a dash in the middle.
pub open spec fn code_text(ip: Seq<u8>, port: u16) -> Seq<char> {
    let symbols = digits32(4 * address_value(ip, port), 10).map_values(|k: int| symbol(k));
    symbols.take(5).push('-') + symbols.skip(5)
}

proof fn lemma_digits32_shape(m: nat, n: nat)
    ensures
        digits32(m, n).len() == n,
        forall|i: int| 0 <= i < n ==> 0 <= #[trigger] digits32(m, n)[i] < 32,
    decreases n,
{
    if n > 0 {
        lemma_digits32_shape(m / 32, (n - 1) as nat);
    }
}

fn push_digits32(out: &mut Vec<u8>, m: u64, n: u8)
    ensures
        final(out)@.len() == old(out)@.len() + n,
        forall|i: int| 0 <= i < old(out)@.len() ==> final(out)@[i] == old(out)@[i],
        forall|i: int|
            0 <= i < n ==> #[trigger] digits32(m as nat, n as nat)[i]
                == final(out)@[old(out)@.len() + i],
    decreases n,
{
    if n > 0 {
        push_digits32(out, m / 32, n - 1);
        out.push((m % 32) as u8);
    }
    proof {
        lemma_digits32_shape(m as nat, n as nat);
        if n > 0 {
            lemma_digits32_shape(m as nat / 32, (n - 1) as nat);
        }
    }
}

/// Writes the code of an address and a port.
pub fn encode(ip: [u8; 4], port: u16) -> (res: String)
    ensures
        res@ == code_text(ip@, port),
{
    let value: u64 = (ip[0] as u64) * 0x100_0000_0000 + (ip[1] as u64) * 0x1_0000_0000 + (
    ip[2] as u64) * 0x100_0000 + (ip[3] as u64) * 0x1_0000 + port as u64;
    let mut d: Vec<u8> = Vec::new();
    push_digits32(&mut d, 4 * value, 10);
    let ghost digits = digits32(4 * address_value(ip@, port), 10);
    let ghost symbols = digits.map_values(|k: int| symbol(k));
    proof {
        lemma_digits32_shape(4 * address_value(ip@, port), 10);
        assert(forall|i: int| 0 <= i < 10 ==> d@[i] == #[trigger] digits[i]);
    }
    let mut out = String::new();
    for i in 0..10usize
        invariant
            d@.len() == 10,
            digits.len() == 10,
            symbols == digits.map_values(|k: int| symbol(k)),
            forall|i: int| 0 <= i < 10 ==> d@[i] == #[trigger] digits[i],
            forall|i: int| 0 <= i < 10 ==> 0 <= #[trigger] digits[i] < 32,
            out@ == (if i <= 5 {
                symbols.take(i as int)
            } else {
                symbols.take(5).push('-') + symbols.subrange(5, i as int)
            }),
    {
        if i == 5 {
            out.push('-');
        }
        assert(digits[i as int] == d@[i as int]);
        out.push(symbol_at(d[i]));
        assert(symbols[i as int] == symbol(d@[i as int] as int));
        proof {
            if i < 5 {
                assert(out@ =~= symbols.take(i + 1));
            } else {
                assert(out@ =~= symbols.take(5).push('-') + symbols.subrange(5, i + 1));
            }
        }
    }
    assert(out@ =~= code_text(ip@, port));
    out
}

/// Whether a reader of codes looks at `c` at all: white space, dashes and underscores are
/// skipped.
pub open spec fn significant(c: char) -> bool {
    !crate::text::white_space(c) && c != '-' && c != '_'
}

/// The five-bit values of a text of symbols, if each of its characters is one.
pub open spec fn values_of(s: Seq<char>) -> Option<Seq<int>> {
    if forall|i: int| 0 <= i < s.len() ==> symbol_value(#[trigger] s[i]) is Some {
        Some(s.map_values(|c: char| symbol_value(c)->Some_0))
    } else {
        None
    }
}

/// The address and the port that a 48-bit number stands for; port 0 is none.
pub open spec fn address_of(v: int) -> Option<(Seq<u8>, u16)> {
    if v % 0x1_0000 == 0 {
        None
    } else {
        Some(
            (
                seq![
                    (v / 0x100_0000_0000) as u8,
                    (v / 0x1_0000_0000 % 256) as u8,
                    (v / 0x100_0000 % 256) as u8,
                    (v / 0x1_0000 % 256) as u8,
                ],
                (v % 0x1_0000) as u16,
            ),
        )
    }
}

/// What a code stands for: its ten significant characters, read as a number of fifty bits
/// whose last two are ignored.
pub open spec fn code_meaning(s: Seq<char>) -> Option<(Seq<u8>, u16)> {
    let symbols = s.filter(|c: char| significant(c));
    if symbols.len() != 10 {
        None
    } else {
        match values_of(symbols) {
            None => None,
            Some(values) => address_of(value32(values) / 4),
        }
    }
}

/// The significant characters of `s`.
fn significant_chars(s: &str) -> (res: Vec<char>)
    ensures
        res@ == s@.filter(|c: char| significant(c)),
{
    let mut cleaned: Vec<char> = Vec::new();
    let ghost keep = |c: char| significant(c);
    for c in it: s.chars()
        invariant
            keep == (|c: char| significant(c)),
            it.seq() == s@,
            cleaned@ == s@.take(it.index() as int).filter(keep),
    {
        proof {
            lemma_filter_step(s@, it.index() as int, keep);
        }
        if !c.is_whitespace() && c != '-' && c != '_' {
            cleaned.push(c);
        }
    }
    assert(s@.take(s@.len() as int) =~= s@);
    cleaned
}

proof fn lemma_filter_step(s: Seq<char>, i: int, keep: spec_fn(char) -> bool)
    requires
        0 <= i < s.len(),
    ensures
        s.take(i + 1).filter(keep) == (if keep(s[i]) {
            s.take(i).filter(keep).push(s[i])
        } else {
            s.take(i).filter(keep)
        }),
{
    assert(s.take(i + 1).drop_last() =~= s.take(i));
    reveal(Seq::filter);
}

/// Reads a code, however it is grouped, spaced or capitalised.
pub fn decode(s: &str) -> (res: Option<([u8; 4], u16)>)
    ensures
        match res {
            Some((ip, port)) => code_meaning(s@) == Some((ip@, port)),
            None => code_meaning(s@) is None,
        },
{
    let cleaned = significant_chars(s);
    if cleaned.len() != 10 {
        return None;
    }
    let mut buf: u64 = 0;
    let ghost symbols = cleaned@;
    let ghost values = symbols.map_values(|c: char| symbol_value(c)->Some_0);
    for i in 0..10usize
        invariant
            cleaned@ == s@.filter(|c: char| significant(c)),
            cleaned@.len() == 10,
            symbols == cleaned@,
            values == symbols.map_values(|c: char| symbol_value(c)->Some_0),
            forall|j: int| 0 <= j < i ==> symbol_value(#[trigger] symbols[j]) is Some,
            buf == value32(values.take(i as int)),
            buf < pow32(i as nat),
    {
        match idx_of(cleaned[i]) {
            None => {
                assert(symbol_value(symbols[i as int]) is None);
                return None;
            },
            Some(k) => {
                proof {
                    assert(values.take(i + 1).drop_last() =~= values.take(i as int));
                    assert(values.take(i + 1).last() == k);
                    lemma_pow32_bound(i as nat);
                }
                buf = buf * 32 + k as u64;
            },
        }
    }
    assert(values.take(10) =~= values);
    let v: u64 = buf / 4;
    proof {
        reveal_with_fuel(pow32, 11);
    }
    let port: u16 = (v % 0x1_0000) as u16;
    let ip: [u8; 4] = [
        (v / 0x100_0000_0000) as u8,
        (v / 0x1_0000_0000 % 256) as u8,
        (v / 0x100_0000 % 256) as u8,
        (v / 0x1_0000 % 256) as u8,
    ];
    if port == 0 {
        return None;
    }
    assert(ip@ =~= address_of(v as int)->Some_0.0);
    Some((ip, port))
}

/// 32 to the power `n`.
pub open spec fn pow32(n: nat) -> nat
    decreases n,
{
    if n == 0 {
        1
    } else {
        32 * pow32((n - 1) as nat)
    }
}

proof fn lemma_pow32_bound(n: nat)
    requires
        n < 10,
    ensures
        pow32(n) <= 0x2000_0000_0000,
        pow32(n + 1) == 32 * pow32(n),
{
    reveal_with_fuel(pow32, 11);
}

// ---------- the launcher's use of codes ----------

/// The address that a socket is bound to.
#[derive(Clone, Copy, Debug)]
pub enum LocalAddr {
    V4([u8; 4]),
    V6,
}

/// Whether an address is of use to a peer on the network: neither 0.0.0.0 nor one of 127.x.x.x.
pub open spec fn reachable(ip: Seq<u8>) -> bool {
    ip[0] != 127 && !(ip[0] == 0 && ip[1] == 0 && ip[2] == 0 && ip[3] == 0)
}

/// The address to give to a peer, from the one that a socket routed to the outside is bound to.
pub fn local_lan_ip(bound: Option<LocalAddr>) -> (res: Option<[u8; 4]>)
    ensures
        res == (match bound {
            Some(LocalAddr::V4(ip)) => if reachable(ip@) {
                Some(ip)
            } else {
                None
            },
            _ => None,
        }),
        res is Some <==> (bound matches Some(LocalAddr::V4(ip)) && ip@[0] != 127 && ip@ != seq![
            0u8,
            0u8,
            0u8,
            0u8,
        ]),
        res is Some ==> bound == Some(LocalAddr::V4(res->Some_0)),
{
    match bound {
        Some(LocalAddr::V4(ip)) => {
            proof {
                law_reachable(ip@);
            }
            if ip[0] == 127 || (ip[0] == 0 && ip[1] == 0 && ip[2] == 0 && ip[3] == 0) {
                None
            } else {
                Some(ip)
            }
        },
        _ => None,
    }
}

/// The code to give to a peer.
pub fn current_code(lan_ip: Option<[u8; 4]>, port: u16) -> (res: Option<String>)
    ensures
        match res {
            Some(code) => lan_ip is Some && code@ == code_text(lan_ip->Some_0@, port),
            None => lan_ip is None,
        },
{
    match lan_ip {
        Some(ip) => Some(encode(ip, port)),
        None => None,
    }
}

/// An address in dotted notation.
pub open spec fn dotted(ip: Seq<u8>) -> Seq<char> {
    crate::text::decimal(ip[0] as nat) + "."@ + crate::text::decimal(ip[1] as nat) + "."@
        + crate::text::decimal(ip[2] as nat) + "."@ + crate::text::decimal(ip[3] as nat)
}

/// Where a code leads to.
pub struct DecodedAddr {
    pub host: String,
    pub port: u16,
}

/// Reads a code that a peer gave.
pub fn decode_code(code: &str) -> (res: Option<DecodedAddr>)
    ensures
        match res {
            Some(addr) => code_meaning(code@) matches Some((ip, port)) && addr.host@ == dotted(ip)
                && addr.port == port,
            None => code_meaning(code@) is None,
        },
        res matches Some(addr) ==> {
            let rows = crate::text::fields(addr.host@, '.');
            &&& addr.port > 0
            &&& rows.len() == 4
            &&& forall|i: int|
                0 <= i < 4 ==> (#[trigger] rows[i]).len() > 0 && crate::text::digits_value(rows[i])
                    == code_meaning(code@)->Some_0.0[i]
        },
{
    match decode(code) {
        None => None,
        Some((ip, port)) => {
            let mut host = String::new();
            push_decimal(&mut host, ip[0] as u64);
            assert(host@ =~= crate::text::decimal(ip@[0] as nat));
            host.append(".");
            push_decimal(&mut host, ip[1] as u64);
            host.append(".");
            push_decimal(&mut host, ip[2] as u64);
            host.append(".");
            push_decimal(&mut host, ip[3] as u64);
            proof {
                law_dotted_reads_back(ip@);
            }
            Some(DecodedAddr { host, port })
        },
    }
}

// ---------- laws ----------

/// The alphabet, in the order of the values that its symbols stand for.
pub proof fn law_alphabet(k: int)
    requires
        0 <= k < 32,
    ensures
        symbol(k) == "ABCDEFGHJKLMNPQRSTUVWXYZ23456789"@[k],
        symbol_value(symbol(k)) == Some(k),
{
    reveal_strlit("ABCDEFGHJKLMNPQRSTUVWXYZ23456789");
}

/// A symbol means the same in upper and in lower case.
pub proof fn law_case_insensitive(c: char)
    requires
        'a' <= c && c <= 'z',
    ensures
        symbol_value(c) == symbol_value((c as u32 - 32) as char),
{
}

proof fn lemma_value32_digits(m: nat, n: nat)
    requires
        m < pow32(n),
    ensures
        value32(digits32(m, n)) == m,
    decreases n,
{
    if n > 0 {
        lemma_value32_digits(m / 32, (n - 1) as nat);
        let d = digits32(m, n);
        assert(d.drop_last() =~= digits32(m / 32, (n - 1) as nat));
    }
}

proof fn lemma_address_of_value(ip: Seq<u8>, port: u16)
    requires
        ip.len() == 4,
    ensures
        address_of(address_value(ip, port) as int) == (if port == 0 {
            None
        } else {
            Some((ip, port))
        }),
{
    let v = address_value(ip, port) as int;
    lemma_octets(ip, port);
    assert(seq![
        (v / 0x100_0000_0000) as u8,
        (v / 0x1_0000_0000 % 256) as u8,
        (v / 0x100_0000 % 256) as u8,
        (v / 0x1_0000 % 256) as u8,
    ] =~= ip);
}

/// A code is eleven characters: two groups of five symbols with a dash between them.
pub proof fn law_code_shape(ip: Seq<u8>, port: u16)
    ensures
        code_text(ip, port).len() == 11,
        code_text(ip, port)[5] == '-',
        forall|i: int| 0 <= i < 11 && i != 5 ==> in_alphabet(#[trigger] code_text(ip, port)[i]),
{
    let m = 4 * address_value(ip, port);
    lemma_digits32_shape(m, 10);
    let d = digits32(m, 10);
    let t = code_text(ip, port);
    assert forall|i: int| 0 <= i < 11 && i != 5 implies in_alphabet(#[trigger] t[i]) by {
        let k = if i < 5 {
            d[i]
        } else {
            d[i - 1]
        };
        assert(0 <= k < 32);
        assert(t[i] == symbol(k));
    }
}

/// No code holds one of the glyphs `0`, `1`, `I` and `O`.
pub proof fn law_code_unambiguous(ip: Seq<u8>, port: u16, i: int)
    requires
        0 <= i < code_text(ip, port).len(),
    ensures
        code_text(ip, port)[i] != '0',
        code_text(ip, port)[i] != '1',
        code_text(ip, port)[i] != 'I',
        code_text(ip, port)[i] != 'O',
{
    law_code_shape(ip, port);
}

/// The symbols of a code are what is left of it when the dash is dropped.
proof fn lemma_code_symbols(ip: Seq<u8>, port: u16)
    ensures
        code_text(ip, port).filter(|c: char| significant(c)) == digits32(
            4 * address_value(ip, port),
            10,
        ).map_values(|k: int| symbol(k)),
{
    let keep = |c: char| significant(c);
    let d = digits32(4 * address_value(ip, port), 10);
    let symbols = d.map_values(|k: int| symbol(k));
    lemma_digits32_shape(4 * address_value(ip, port), 10);
    let first = symbols.take(5);
    let last = symbols.skip(5);
    assert forall|i: int| 0 <= i < 10 implies keep(#[trigger] symbols[i]) by {
        assert(0 <= d[i] < 32);
    }
    lemma_filter_all(first, keep);
    lemma_filter_all(last, keep);
    assert(first.push('-').filter(keep) == first) by {
        assert(first.push('-').drop_last() =~= first);
        reveal(Seq::filter);
    }
    lemma_filter_concat(first.push('-'), last, keep);
    assert(symbols =~= first + last);
}

proof fn lemma_filter_all(s: Seq<char>, keep: spec_fn(char) -> bool)
    requires
        forall|i: int| 0 <= i < s.len() ==> keep(#[trigger] s[i]),
    ensures
        s.filter(keep) == s,
    decreases s.len(),
{
    reveal(Seq::filter);
    if s.len() > 0 {
        lemma_filter_all(s.drop_last(), keep);
        assert(keep(s[s.len() - 1]));
        assert(s.drop_last().push(s.last()) =~= s);
    } else {
        assert(s.filter(keep) =~= s);
    }
}

proof fn lemma_filter_concat(a: Seq<char>, b: Seq<char>, keep: spec_fn(char) -> bool)
    ensures
        (a + b).filter(keep) == a.filter(keep) + b.filter(keep),
    decreases b.len(),
{
    reveal(Seq::filter);
    if b.len() > 0 {
        lemma_filter_concat(a, b.drop_last(), keep);
        assert((a + b).drop_last() =~= a + b.drop_last());
        assert((a + b).filter(keep) =~= a.filter(keep) + b.filter(keep));
    } else {
        assert(a + b =~= a);
        assert(a.filter(keep) + b.filter(keep) =~= a.filter(keep));
    }
}

/// What a code is read as is what it was written from. Port 0 has a code that reads as nothing.
pub proof fn law_code_round_trip(ip: Seq<u8>, port: u16)
    requires
        ip.len() == 4,
    ensures
        code_meaning(code_text(ip, port)) == (if port == 0 {
            None
        } else {
            Some((ip, port))
        }),
{
    let v = address_value(ip, port);
    let d = digits32(4 * v, 10);
    let symbols = d.map_values(|k: int| symbol(k));
    lemma_code_symbols(ip, port);
    lemma_digits32_shape(4 * v, 10);
    assert forall|i: int| 0 <= i < 10 implies symbol_value(#[trigger] symbols[i]) == Some(
        d[i],
    ) by {
        law_alphabet(d[i]);
    }
    assert(values_of(symbols)->Some_0 =~= d);
    assert(4 * v < pow32(10)) by {
        reveal_with_fuel(pow32, 11);
    }
    lemma_value32_digits(4 * v, 10);
    lemma_address_of_value(ip, port);
}

/// A code can be typed in lower case and grouped at will: any text whose significant characters
/// are the symbols of a code, in either case, is read as that code.
pub proof fn law_code_reads_as_written(ip: Seq<u8>, port: u16, t: Seq<char>)
    requires
        ip.len() == 4,
        ({
            let typed = t.filter(|c: char| significant(c));
            let symbols = code_text(ip, port).filter(|c: char| significant(c));
            &&& typed.len() == symbols.len()
            &&& forall|i: int|
                0 <= i < typed.len() ==> upper_code(#[trigger] typed[i]) == symbols[i] as int
        }),
    ensures
        code_meaning(t) == (if port == 0 {
            None
        } else {
            Some((ip, port))
        }),
{
    let typed = t.filter(|c: char| significant(c));
    let symbols = code_text(ip, port).filter(|c: char| significant(c));
    lemma_code_symbols(ip, port);
    lemma_digits32_shape(4 * address_value(ip, port), 10);
    let d = digits32(4 * address_value(ip, port), 10);
    let a = typed.map_values(|c: char| symbol_value(c));
    let b = symbols.map_values(|c: char| symbol_value(c));
    assert forall|i: int| 0 <= i < a.len() implies a[i] == b[i] by {
        assert(symbols[i] == symbol(d[i]));
        assert(0 <= d[i] < 32);
        assert(upper_code(typed[i]) == symbols[i] as int);
        assert(upper_code(symbols[i]) == symbols[i] as int);
    }
    assert(a =~= b);
    law_code_spelling(t, code_text(ip, port));
    law_code_round_trip(ip, port);
}

/// Different addresses have different codes.
pub proof fn law_code_injective(ip1: Seq<u8>, port1: u16, ip2: Seq<u8>, port2: u16)
    requires
        ip1.len() == 4,
        ip2.len() == 4,
        code_text(ip1, port1) == code_text(ip2, port2),
    ensures
        ip1 == ip2,
        port1 == port2,
{
    let v1 = address_value(ip1, port1);
    let v2 = address_value(ip2, port2);
    let d1 = digits32(4 * v1, 10);
    let d2 = digits32(4 * v2, 10);
    lemma_code_symbols(ip1, port1);
    lemma_code_symbols(ip2, port2);
    lemma_digits32_shape(4 * v1, 10);
    lemma_digits32_shape(4 * v2, 10);
    let s1 = d1.map_values(|k: int| symbol(k));
    let s2 = d2.map_values(|k: int| symbol(k));
    assert forall|i: int| 0 <= i < 10 implies d1[i] == d2[i] by {
        assert(s1[i] == s2[i]);
        law_alphabet(d1[i]);
        law_alphabet(d2[i]);
    }
    assert(d1 =~= d2);
    assert(4 * v1 < pow32(10) && 4 * v2 < pow32(10)) by {
        reveal_with_fuel(pow32, 11);
    }
    lemma_value32_digits(4 * v1, 10);
    lemma_value32_digits(4 * v2, 10);
    assert(v1 / 0x1_0000 == v2 / 0x1_0000 && v1 % 0x1_0000 == v2 % 0x1_0000);
    lemma_octets(ip1, port1);
    lemma_octets(ip2, port2);
    assert(ip1 =~= ip2);
}

proof fn lemma_octets(ip: Seq<u8>, port: u16)
    requires
        ip.len() == 4,
    ensures
        ({
            let v = address_value(ip, port) as int;
            &&& v % 0x1_0000 == port
            &&& v / 0x1_0000 % 256 == ip[3]
            &&& v / 0x100_0000 % 256 == ip[2]
            &&& v / 0x1_0000_0000 % 256 == ip[1]
            &&& v / 0x100_0000_0000 == ip[0]
        }),
{
    let v = address_value(ip, port) as int;
    assert(v % 0x1_0000 == port);
    assert(v / 0x1_0000 == ip[0] * 0x100_0000 + ip[1] * 0x1_0000 + ip[2] * 0x100 + ip[3]);
    assert(v / 0x100_0000 == ip[0] * 0x1_0000 + ip[1] * 0x100 + ip[2]);
    assert(v / 0x1_0000_0000 == ip[0] * 0x100 + ip[1]);
    assert(v / 0x100_0000_0000 == ip[0]);
}

/// Separators, white space and the case of letters make no difference to what a text is read
/// as: only the values of its significant characters count.
pub proof fn law_code_spelling(s: Seq<char>, t: Seq<char>)
    requires
        s.filter(|c: char| significant(c)).map_values(|c: char| symbol_value(c)) == t.filter(
            |c: char| significant(c),
        ).map_values(|c: char| symbol_value(c)),
    ensures
        code_meaning(s) == code_meaning(t),
{
    let a = s.filter(|c: char| significant(c));
    let b = t.filter(|c: char| significant(c));
    let va = a.map_values(|c: char| symbol_value(c));
    let vb = b.map_values(|c: char| symbol_value(c));
    assert(va.len() == a.len() && vb.len() == b.len());
    assert(forall|i: int| 0 <= i < a.len() ==> va[i] == symbol_value(#[trigger] a[i]));
    assert(forall|i: int| 0 <= i < b.len() ==> vb[i] == symbol_value(#[trigger] b[i]));
    assert forall|i: int| 0 <= i < a.len() implies symbol_value(#[trigger] a[i]) == symbol_value(
        b[i],
    ) by {
        assert(va[i] == vb[i]);
    }
    assert forall|i: int| 0 <= i < b.len() implies symbol_value(a[i]) == symbol_value(
        #[trigger] b[i],
    ) by {
        assert(va[i] == vb[i]);
    }
    if values_of(a) is Some {
        assert(values_of(a)->Some_0 =~= values_of(b)->Some_0);
    }
}

/// An address in dotted notation reads back: it is four rows of digits with a point between each
/// two, none of them empty or with a zero too many, and the value of a row is the octet.
pub proof fn law_dotted_reads_back(ip: Seq<u8>)
    requires
        ip.len() == 4,
    ensures
        ({
            let rows = crate::text::fields(dotted(ip), '.');
            &&& rows.len() == 4
            &&& forall|i: int|
                0 <= i < 4 ==> (#[trigger] rows[i]).len() > 0 && crate::text::digits_value(rows[i])
                    == ip[i] && (rows[i].len() > 1 ==> rows[i][0] != '0')
            &&& forall|i: int, j: int|
                0 <= i < 4 && 0 <= j < rows[i].len() ==> '0' <= #[trigger] rows[i][j] && rows[i][j]
                    <= '9'
        }),
        forall|k: int|
            0 <= k < dotted(ip).len() ==> #[trigger] dotted(ip)[k] == '.' || ('0' <= dotted(ip)[k]
                && dotted(ip)[k] <= '9'),
{
    reveal_strlit(".");
    assert("."@ =~= seq!['.']);
    let a = crate::text::decimal(ip[0] as nat);
    let b = crate::text::decimal(ip[1] as nat);
    let c = crate::text::decimal(ip[2] as nat);
    let d = crate::text::decimal(ip[3] as nat);
    lemma_no_point(ip[0] as nat);
    lemma_no_point(ip[1] as nat);
    lemma_no_point(ip[2] as nat);
    lemma_no_point(ip[3] as nat);
    crate::text::law_fields(Seq::empty(), '.', a);
    crate::text::law_fields(a, '.', b);
    crate::text::law_fields(a + seq!['.'] + b, '.', c);
    crate::text::law_fields(a + seq!['.'] + b + seq!['.'] + c, '.', d);
    let rows = crate::text::fields(dotted(ip), '.');
    assert(rows == seq![a].push(b).push(c).push(d));
    assert(rows[0] == a && rows[1] == b && rows[2] == c && rows[3] == d);
    assert forall|i: int, j: int| 0 <= i < 4 && 0 <= j < rows[i].len() implies '0'
        <= #[trigger] rows[i][j] && rows[i][j] <= '9' by {
        assert(crate::text::is_digit(rows[i][j]));
    }
    let t = dotted(ip);
    assert forall|k: int| 0 <= k < t.len() implies #[trigger] t[k] == '.' || ('0' <= t[k] && t[k]
        <= '9') by {
        let p = a.len() as int;
        let q = p + 1 + b.len();
        let r = q + 1 + c.len();
        if k < p {
            assert(crate::text::is_digit(a[k]));
        } else if p < k < q {
            assert(crate::text::is_digit(b[k - p - 1]));
        } else if q < k < r {
            assert(crate::text::is_digit(c[k - q - 1]));
        } else if r < k {
            assert(crate::text::is_digit(d[k - r - 1]));
        }
    }
}

proof fn lemma_no_point(n: nat)
    ensures
        crate::text::decimal(n).len() > 0,
        crate::text::decimal(n).len() > 1 ==> crate::text::decimal(n)[0] != '0',
        crate::text::digits_value(crate::text::decimal(n)) == n,
        forall|i: int|
            0 <= i < crate::text::decimal(n).len() ==> crate::text::is_digit(
                #[trigger] crate::text::decimal(n)[i],
            ),
        forall|i: int|
            0 <= i < crate::text::decimal(n).len() ==> #[trigger] crate::text::decimal(n)[i] != '.',
{
    crate::text::law_decimal_round_trip(n);
    assert forall|i: int| 0 <= i < crate::text::decimal(n).len() implies #[trigger]
        crate::text::decimal(n)[i] != '.' by {
        assert(crate::text::is_digit(crate::text::decimal(n)[i]));
    }
}

/// Different addresses are written differently.
pub proof fn law_dotted_injective(ip1: Seq<u8>, ip2: Seq<u8>)
    requires
        ip1.len() == 4,
        ip2.len() == 4,
        dotted(ip1) == dotted(ip2),
    ensures
        ip1 == ip2,
{
    law_dotted_reads_back(ip1);
    law_dotted_reads_back(ip2);
    let rows = crate::text::fields(dotted(ip1), '.');
    assert forall|i: int| 0 <= i < 4 implies ip1[i] == ip2[i] by {
        assert(crate::text::digits_value(rows[i]) == ip1[i]);
    }
    assert(ip1 =~= ip2);
}

/// A character stands for a value if its low byte, as a capital where it is one of `a..=z`, is
/// that symbol of the alphabet, and for no value if it is none of them.
pub proof fn law_symbol_value(c: char, k: int)
    requires
        0 <= k < 32,
    ensures
        ({
            let u = if 'a' <= c && c <= 'z' {
                c as int - 32
            } else {
                c as int
            };
            symbol_value(c) == Some(k) <==> u % 256 == "ABCDEFGHJKLMNPQRSTUVWXYZ23456789"@[k] as int
        }),
        symbol_value(c) is Some ==> 0 <= symbol_value(c)->Some_0 < 32,
{
    reveal_strlit("ABCDEFGHJKLMNPQRSTUVWXYZ23456789");
    law_alphabet(k);
}

/// A reader of codes passes over white space, dashes and underscores, and over nothing else.
pub proof fn law_significant(c: char)
    ensures
        significant(c) <==> !(crate::text::white_space(c) || c == '-' || c == '_'),
{
}

/// The number that ten five-bit values stand for, the first being the most significant.
pub open spec fn fifty_bits(d: Seq<int>) -> int {
    (((((((((d[0] * 32 + d[1]) * 32 + d[2]) * 32 + d[3]) * 32 + d[4]) * 32 + d[5]) * 32 + d[6]) * 32
        + d[7]) * 32 + d[8]) * 32 + d[9])
}

proof fn lemma_fifty_bits(d: Seq<int>)
    requires
        d.len() == 10,
    ensures
        value32(d) == fifty_bits(d),
{
    lemma_value32_step(d, 0);
    lemma_value32_step(d, 1);
    lemma_value32_step(d, 2);
    lemma_value32_step(d, 3);
    lemma_value32_step(d, 4);
    lemma_value32_step(d, 5);
    lemma_value32_step(d, 6);
    lemma_value32_step(d, 7);
    lemma_value32_step(d, 8);
    lemma_value32_step(d, 9);
    assert(d.take(0) =~= Seq::<int>::empty());
    assert(d.take(10) =~= d);
}

proof fn lemma_value32_step(d: Seq<int>, i: int)
    requires
        0 <= i < d.len(),
    ensures
        value32(d.take(i + 1)) == value32(d.take(i)) * 32 + d[i],
{
    assert(d.take(i + 1).drop_last() =~= d.take(i));
}

/// A code is a number in symbols: the places that its symbols have in the alphabet, five bits
/// each, are the address, the port and two zero bits.
pub proof fn law_code_number(ip: Seq<u8>, port: u16, d: Seq<int>)
    requires
        ip.len() == 4,
        d.len() == 10,
        forall|i: int| 0 <= i < 10 ==> 0 <= #[trigger] d[i] < 32,
        forall|i: int|
            0 <= i < 10 ==> code_text(ip, port)[if i < 5 {
                i
            } else {
                i + 1
            }] == "ABCDEFGHJKLMNPQRSTUVWXYZ23456789"@[#[trigger] d[i]],
    ensures
        (((((((((d[0] * 32 + d[1]) * 32 + d[2]) * 32 + d[3]) * 32 + d[4]) * 32 + d[5]) * 32 + d[6])
            * 32 + d[7]) * 32 + d[8]) * 32 + d[9]) == 4 * (ip[0] * 0x100_0000_0000 + ip[1]
            * 0x1_0000_0000 + ip[2] * 0x100_0000 + ip[3] * 0x1_0000 + port),
{
    let v = address_value(ip, port);
    let e = digits32(4 * v, 10);
    lemma_digits32_shape(4 * v, 10);
    let symbols = e.map_values(|k: int| symbol(k));
    let t = code_text(ip, port);
    assert forall|i: int| 0 <= i < 10 implies d[i] == e[i] by {
        assert(symbols[i] == symbol(e[i]));
        assert(t[if i < 5 {
            i
        } else {
            i + 1
        }] == symbols[i]);
        law_alphabet(d[i]);
        law_alphabet(e[i]);
    }
    assert(d =~= e);
    assert(4 * v < pow32(10)) by {
        reveal_with_fuel(pow32, 11);
    }
    lemma_value32_digits(4 * v, 10);
    lemma_fifty_bits(d);
}

/// What a text is read as: nothing unless it has ten significant characters, each of them a
/// symbol; then the address and the port that the number of its symbols holds above its last two
/// bits, or nothing if that port is 0.
pub proof fn law_code_reading(t: Seq<char>, d: Seq<int>)
    requires
        ({
            let typed = t.filter(|c: char| significant(c));
            &&& d.len() == 10
            &&& typed.len() == 10
            &&& forall|i: int| 0 <= i < 10 ==> symbol_value(typed[i]) == Some(#[trigger] d[i])
        }),
    ensures
        ({
            let number = (((((((((d[0] * 32 + d[1]) * 32 + d[2]) * 32 + d[3]) * 32 + d[4]) * 32
                + d[5]) * 32 + d[6]) * 32 + d[7]) * 32 + d[8]) * 32 + d[9]);
            match code_meaning(t) {
                None => number / 4 % 0x1_0000 == 0,
                Some((ip, port)) => {
                    &&& port > 0
                    &&& ip.len() == 4
                    &&& ip[0] * 0x100_0000_0000 + ip[1] * 0x1_0000_0000 + ip[2] * 0x100_0000 + ip[3]
                        * 0x1_0000 + port == number / 4
                },
            }
        }),
{
    let typed = t.filter(|c: char| significant(c));
    assert forall|i: int| 0 <= i < 10 implies symbol_value(#[trigger] typed[i]) is Some && 0 <= d[i]
        < 32 by {
        assert(symbol_value(typed[i]) == Some(d[i]));
        law_symbol_value(typed[i], 0);
    }
    assert(values_of(typed)->Some_0 =~= d);
    lemma_fifty_bits(d);
    let v = value32(d) / 4;
    assert(0 <= d[0] < 32 && 0 <= d[1] < 32 && 0 <= d[2] < 32 && 0 <= d[3] < 32 && 0 <= d[4] < 32);
    assert(0 <= d[5] < 32 && 0 <= d[6] < 32 && 0 <= d[7] < 32 && 0 <= d[8] < 32 && 0 <= d[9] < 32);
    assert(0 <= v < 0x1_0000_0000_0000);
    assert(v / 0x1_0000 / 256 == v / 0x100_0000);
    assert(v / 0x100_0000 / 256 == v / 0x1_0000_0000);
    assert(v / 0x1_0000_0000 / 256 == v / 0x100_0000_0000);
}

/// A text without ten significant characters, or with one that is no symbol, is no code.
pub proof fn law_code_refused(t: Seq<char>, i: int)
    requires
        ({
            let typed = t.filter(|c: char| significant(c));
            typed.len() != 10 || (0 <= i < 10 && symbol_value(typed[i]) is None)
        }),
    ensures
        code_meaning(t) is None,
{
}

/// An address of use to a peer is any but 0.0.0.0 and those that begin with 127.
pub proof fn law_reachable(ip: Seq<u8>)
    requires
        ip.len() == 4,
    ensures
        !reachable(ip) <==> ip[0] == 127 || ip == seq![0u8, 0u8, 0u8, 0u8],
{
    if ip[0] == 0 && ip[1] == 0 && ip[2] == 0 && ip[3] == 0 {
        assert(ip =~= seq![0u8, 0u8, 0u8, 0u8]);
    }
}

} // verus!
