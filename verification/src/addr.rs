//! Plain-value model of a resolved socket address, together with its
//! canonical text form.
//!
//! Directory records carry hosts as `"address:port"` strings; routing works
//! on resolved addresses.  `HostAddress` holds the resolved form as plain
//! integers, `addr_chars` defines its canonical text rendering, and
//! `host_address_string` / `parse_host_address` convert between the two.
//! The canonical rendering is dotted decimal for IPv4 and eight lowercase
//! hexadecimal groups in brackets for IPv6, each number without leading
//! zeros.  The parser accepts exactly that form — compressed IPv6 text and
//! other permissive spellings denote nothing here.  The restriction is
//! deliberate: it is what lets an accepted wire record round-trip through
//! the model bit-exactly, where a permissive parser would silently
//! normalise it.

use vstd::prelude::*;

verus! {

/// The eight 16-bit groups of an IPv6 address.
#[derive(Clone, Copy, Debug, PartialEq, Eq, Structural)]
pub struct Ipv6Groups {
    pub g0: u16,
    pub g1: u16,
    pub g2: u16,
    pub g3: u16,
    pub g4: u16,
    pub g5: u16,
    pub g6: u16,
    pub g7: u16,
}

/// A resolved IP address as plain integers.
#[derive(Clone, Copy, Debug, PartialEq, Eq, Structural)]
pub enum IpAddress {
    V4 { a: u8, b: u8, c: u8, d: u8 },
    V6 { groups: Ipv6Groups },
}

/// A resolved socket address: an IP address and a port.
#[derive(Clone, Copy, Debug, PartialEq, Eq, Structural)]
pub struct HostAddress {
    pub ip: IpAddress,
    pub port: u16,
}

/// The decimal digit character for a value below ten.
pub open spec fn dec_char(d: nat) -> char {
    if d == 0 {
        '0'
    } else if d == 1 {
        '1'
    } else if d == 2 {
        '2'
    } else if d == 3 {
        '3'
    } else if d == 4 {
        '4'
    } else if d == 5 {
        '5'
    } else if d == 6 {
        '6'
    } else if d == 7 {
        '7'
    } else if d == 8 {
        '8'
    } else {
        '9'
    }
}

/// The decimal rendering of a number, without leading zeros.
pub open spec fn dec_str(n: nat) -> Seq<char>
    decreases n,
{
    if n < 10 {
        seq![dec_char(n)]
    } else {
        dec_str(n / 10).push(dec_char(n % 10))
    }
}

/// The lowercase hexadecimal digit character for a value below sixteen.
pub open spec fn hex_char(d: nat) -> char {
    if d < 10 {
        dec_char(d)
    } else if d == 10 {
        'a'
    } else if d == 11 {
        'b'
    } else if d == 12 {
        'c'
    } else if d == 13 {
        'd'
    } else if d == 14 {
        'e'
    } else {
        'f'
    }
}

/// The lowercase hexadecimal rendering of a number, without leading zeros.
pub open spec fn hex_str(n: nat) -> Seq<char>
    decreases n,
{
    if n < 16 {
        seq![hex_char(n)]
    } else {
        hex_str(n / 16).push(hex_char(n % 16))
    }
}

/// Canonical text of the address part alone.
pub open spec fn ip_chars(ip: IpAddress) -> Seq<char> {
    match ip {
        IpAddress::V4 { a, b, c, d } => dec_str(a as nat) + seq!['.'] + dec_str(b as nat)
            + seq!['.'] + dec_str(c as nat) + seq!['.'] + dec_str(d as nat),
        IpAddress::V6 { groups } => seq!['['] + hex_str(groups.g0 as nat) + seq![':'] + hex_str(
            groups.g1 as nat,
        ) + seq![':'] + hex_str(groups.g2 as nat) + seq![':'] + hex_str(groups.g3 as nat)
            + seq![':'] + hex_str(groups.g4 as nat) + seq![':'] + hex_str(groups.g5 as nat)
            + seq![':'] + hex_str(groups.g6 as nat) + seq![':'] + hex_str(groups.g7 as nat)
            + seq![']'],
    }
}

/// Canonical text of a whole socket address: the address part, a colon, and
/// the port in decimal.
pub open spec fn addr_chars(addr: HostAddress) -> Seq<char> {
    ip_chars(addr.ip) + seq![':'] + dec_str(addr.port as nat)
}

fn dec_digit_str(d: u16) -> (r: &'static str)
    requires
        d < 10,
    ensures
        r@ == seq![dec_char(d as nat)],
{
    proof {
        reveal_strlit("0");
        reveal_strlit("1");
        reveal_strlit("2");
        reveal_strlit("3");
        reveal_strlit("4");
        reveal_strlit("5");
        reveal_strlit("6");
        reveal_strlit("7");
        reveal_strlit("8");
        reveal_strlit("9");
    }
    let r = if d == 0 {
        "0"
    } else if d == 1 {
        "1"
    } else if d == 2 {
        "2"
    } else if d == 3 {
        "3"
    } else if d == 4 {
        "4"
    } else if d == 5 {
        "5"
    } else if d == 6 {
        "6"
    } else if d == 7 {
        "7"
    } else if d == 8 {
        "8"
    } else {
        "9"
    };
    proof {
        assert(r@ =~= seq![dec_char(d as nat)]);
    }
    r
}

fn hex_digit_str(d: u16) -> (r: &'static str)
    requires
        d < 16,
    ensures
        r@ == seq![hex_char(d as nat)],
{
    if d < 10 {
        dec_digit_str(d)
    } else {
        proof {
            reveal_strlit("a");
            reveal_strlit("b");
            reveal_strlit("c");
            reveal_strlit("d");
            reveal_strlit("e");
            reveal_strlit("f");
        }
        let r = if d == 10 {
            "a"
        } else if d == 11 {
            "b"
        } else if d == 12 {
            "c"
        } else if d == 13 {
            "d"
        } else if d == 14 {
            "e"
        } else {
            "f"
        };
        proof {
            assert(r@ =~= seq![hex_char(d as nat)]);
        }
        r
    }
}

fn push_dec(out: &mut String, n: u16)
    ensures
        final(out)@ == old(out)@ + dec_str(n as nat),
    decreases n,
{
    if n < 10 {
        out.append(dec_digit_str(n));
        assert(out@ =~= old(out)@ + dec_str(n as nat));
    } else {
        push_dec(out, n / 10);
        out.append(dec_digit_str(n % 10));
        assert(out@ =~= old(out)@ + dec_str(n as nat));
    }
}

fn push_hex(out: &mut String, n: u16)
    ensures
        final(out)@ == old(out)@ + hex_str(n as nat),
    decreases n,
{
    if n < 16 {
        out.append(hex_digit_str(n));
        assert(out@ =~= old(out)@ + hex_str(n as nat));
    } else {
        push_hex(out, n / 16);
        out.append(hex_digit_str(n % 16));
        assert(out@ =~= old(out)@ + hex_str(n as nat));
    }
}

/// Renders a socket address in its canonical text form.
pub fn host_address_string(addr: &HostAddress) -> (r: String)
    ensures
        r@ == addr_chars(*addr),
{
    proof {
        reveal_strlit(".");
        reveal_strlit(":");
        reveal_strlit("[");
        reveal_strlit("]");
        assert("."@ =~= seq!['.']);
        assert(":"@ =~= seq![':']);
        assert("["@ =~= seq!['[']);
        assert("]"@ =~= seq![']']);
    }
    let mut s = String::new();
    match addr.ip {
        IpAddress::V4 { a, b, c, d } => {
            push_dec(&mut s, a as u16);
            s.append(".");
            push_dec(&mut s, b as u16);
            s.append(".");
            push_dec(&mut s, c as u16);
            s.append(".");
            push_dec(&mut s, d as u16);
            assert(s@ =~= ip_chars(addr.ip));
        },
        IpAddress::V6 { groups } => {
            s.append("[");
            push_hex(&mut s, groups.g0);
            s.append(":");
            push_hex(&mut s, groups.g1);
            s.append(":");
            push_hex(&mut s, groups.g2);
            s.append(":");
            push_hex(&mut s, groups.g3);
            s.append(":");
            push_hex(&mut s, groups.g4);
            s.append(":");
            push_hex(&mut s, groups.g5);
            s.append(":");
            push_hex(&mut s, groups.g6);
            s.append(":");
            push_hex(&mut s, groups.g7);
            s.append("]");
            assert(s@ =~= ip_chars(addr.ip));
        },
    }
    s.append(":");
    push_dec(&mut s, addr.port);
    assert(s@ =~= addr_chars(*addr));
    s
}

/// Copies a string into a vector of its characters.
pub fn chars_of(s: &String) -> (v: Vec<char>)
    ensures
        v@ == s@,
{
    let n = s.as_str().unicode_len();
    let mut v: Vec<char> = Vec::new();
    let mut i: usize = 0;
    while i < n
        invariant
            i <= n,
            n == s@.len(),
            v@ == s@.take(i as int),
        decreases n - i,
    {
        v.push(s.as_str().get_char(i));
        i = i + 1;
        assert(v@ =~= s@.take(i as int));
    }
    proof {
        assert(v@ =~= s@);
    }
    v
}

/// The index of the first occurrence of `c` in `s` within `[from, until)`.
pub open spec fn first_at(s: Seq<char>, from: int, until: int, c: char) -> Option<int>
    decreases until - from,
{
    if from >= until {
        None
    } else if s[from] == c {
        Some(from)
    } else {
        first_at(s, from + 1, until, c)
    }
}

/// The running value of the decimal digits `s[i..end)`, started at `val`:
/// nothing on the first non-digit, and nothing once the value leaves
/// `bound`.
pub open spec fn dec_digits_from(s: Seq<char>, i: int, end: int, val: int, bound: int) -> Option<
    int,
>
    decreases end - i,
{
    if i >= end {
        Some(val)
    } else if !('0' <= s[i] && s[i] <= '9') {
        None
    } else if val > 6553 {
        None
    } else {
        let v2 = val * 10 + (s[i] as int - '0' as int);
        if v2 > bound {
            None
        } else {
            dec_digits_from(s, i + 1, end, v2, bound)
        }
    }
}

/// The number the decimal digits `s[start..end)` denote: at least one
/// digit, digits only, value within `bound`.
pub open spec fn dec_number(s: Seq<char>, start: int, end: int, bound: int) -> Option<int> {
    if start >= end {
        None
    } else {
        dec_digits_from(s, start, end, 0, bound)
    }
}

/// The value of one lowercase hexadecimal digit.
pub open spec fn hex_digit_val(c: char) -> Option<int> {
    if '0' <= c && c <= '9' {
        Some(c as int - '0' as int)
    } else if 'a' <= c && c <= 'f' {
        Some(c as int - 'a' as int + 10)
    } else {
        None
    }
}

/// The running value of the hexadecimal digits `s[i..end)`, started at
/// `val`; a group never exceeds sixteen bits.
pub open spec fn hex_digits_from(s: Seq<char>, i: int, end: int, val: int) -> Option<int>
    decreases end - i,
{
    if i >= end {
        Some(val)
    } else {
        match hex_digit_val(s[i]) {
            None => None,
            Some(d) => if val > 4095 {
                None
            } else {
                hex_digits_from(s, i + 1, end, val * 16 + d)
            },
        }
    }
}

/// The number the hexadecimal digits `s[start..end)` denote: at least one
/// digit, lowercase digits only, at most sixteen bits.
pub open spec fn hex_number(s: Seq<char>, start: int, end: int) -> Option<int> {
    if start >= end {
        None
    } else {
        hex_digits_from(s, start, end, 0)
    }
}

/// The address an IPv4 text denotes: four decimal octets joined by dots,
/// a colon, and a decimal port.
pub open spec fn v4_extract(s: Seq<char>) -> Option<HostAddress> {
    let n = s.len() as int;
    match first_at(s, 0, n, ':') {
        None => None,
        Some(colon) => match first_at(s, 0, colon, '.') {
            None => None,
            Some(dot1) => match first_at(s, dot1 + 1, colon, '.') {
                None => None,
                Some(dot2) => match first_at(s, dot2 + 1, colon, '.') {
                    None => None,
                    Some(dot3) => match (
                        dec_number(s, 0, dot1, 255),
                        dec_number(s, dot1 + 1, dot2, 255),
                        dec_number(s, dot2 + 1, dot3, 255),
                        dec_number(s, dot3 + 1, colon, 255),
                        dec_number(s, colon + 1, n, 65535),
                    ) {
                        (Some(a), Some(b), Some(c), Some(d), Some(port)) => Some(
                            HostAddress {
                                ip: IpAddress::V4 {
                                    a: a as u8,
                                    b: b as u8,
                                    c: c as u8,
                                    d: d as u8,
                                },
                                port: port as u16,
                            },
                        ),
                        _ => None,
                    },
                },
            },
        },
    }
}

/// The remaining hexadecimal groups of an IPv6 text, read from `cur` up to
/// the closing bracket at `rb`: all but the last group end at the next
/// colon, the last at the bracket.
pub open spec fn v6_groups_from(s: Seq<char>, cur: int, rb: int, remaining: nat) -> Option<
    Seq<int>,
>
    decreases remaining,
{
    if remaining == 0 {
        Some(Seq::empty())
    } else {
        let end = if remaining > 1 {
            first_at(s, cur, rb, ':')
        } else {
            Some(rb)
        };
        match end {
            None => None,
            Some(e) => match hex_number(s, cur, e) {
                None => None,
                Some(g) => match v6_groups_from(s, e + 1, rb, (remaining - 1) as nat) {
                    None => None,
                    Some(rest) => Some(seq![g] + rest),
                },
            },
        }
    }
}

/// The address an IPv6 text denotes: eight hexadecimal groups joined by
/// colons inside brackets, then a colon and a decimal port.
pub open spec fn v6_extract(s: Seq<char>) -> Option<HostAddress> {
    let n = s.len() as int;
    match first_at(s, 0, n, ']') {
        None => None,
        Some(rb) => match v6_groups_from(s, 1, rb, 8) {
            None => None,
            Some(gs) => if rb + 1 < n && s[rb + 1] == ':' {
                match dec_number(s, rb + 2, n, 65535) {
                    None => None,
                    Some(port) => Some(
                        HostAddress {
                            ip: IpAddress::V6 {
                                groups: Ipv6Groups {
                                    g0: gs[0] as u16,
                                    g1: gs[1] as u16,
                                    g2: gs[2] as u16,
                                    g3: gs[3] as u16,
                                    g4: gs[4] as u16,
                                    g5: gs[5] as u16,
                                    g6: gs[6] as u16,
                                    g7: gs[7] as u16,
                                },
                            },
                            port: port as u16,
                        },
                    ),
                }
            } else {
                None
            },
        },
    }
}

/// The address a text denotes, if any: the bracket decides the family, the
/// grammar above yields the candidate, and the candidate counts only when
/// its canonical rendering is the input itself — so leading zeros,
/// uppercase hexadecimal and every other non-canonical spelling denote
/// nothing.
pub open spec fn parse_addr(s: Seq<char>) -> Option<HostAddress> {
    let candidate = if s.len() > 0 && s[0] == '[' {
        v6_extract(s)
    } else {
        v4_extract(s)
    };
    match candidate {
        Some(a) => if addr_chars(a) == s {
            Some(a)
        } else {
            None
        },
        None => None,
    }
}

/// Every character of a decimal rendering is a digit.
proof fn lemma_dec_str_digits(n: nat)
    ensures
        forall|j: int| 0 <= j < dec_str(n).len() ==> '0' <= #[trigger] dec_str(n)[j] <= '9',
    decreases n,
{
    if n >= 10 {
        lemma_dec_str_digits(n / 10);
        assert forall|j: int| 0 <= j < dec_str(n).len() implies '0' <= #[trigger] dec_str(n)[j]
            <= '9' by {
            if j < dec_str(n / 10).len() {
                assert(dec_str(n)[j] == dec_str(n / 10)[j]);
            }
        }
    }
}

/// The digit character of a value below ten carries exactly that value.
proof fn lemma_dec_char_val(d: nat)
    requires
        d < 10,
    ensures
        '0' <= dec_char(d) <= '9',
        dec_char(d) as int == '0' as int + d,
{
}

/// Scanning one more digit extends the running value by that digit.
proof fn lemma_dec_scan_snoc(s: Seq<char>, i: int, end: int, val: int, bound: int, m: int)
    requires
        i <= end - 1,
        end <= s.len(),
        dec_digits_from(s, i, end - 1, val, bound) == Some(m),
        '0' <= s[end - 1] <= '9',
        m <= 6553,
        m * 10 + (s[end - 1] as int - '0' as int) <= bound,
    ensures
        dec_digits_from(s, i, end, val, bound) == Some(
            m * 10 + (s[end - 1] as int - '0' as int),
        ),
    decreases end - i,
{
    if i == end - 1 {
        assert(m == val);
        let v2 = m * 10 + (s[end - 1] as int - '0' as int);
        assert(dec_digits_from(s, end, end, v2, bound) == Some(v2));
    } else {
        assert('0' <= s[i] <= '9' && val <= 6553 && val * 10 + (s[i] as int - '0' as int)
            <= bound);
        lemma_dec_scan_snoc(s, i + 1, end, val * 10 + (s[i] as int - '0' as int), bound, m);
    }
}

/// A decimal rendering embedded in a string scans back to its number.
proof fn lemma_dec_number_of_dec_str(s: Seq<char>, i: int, n: nat, bound: int)
    requires
        0 <= i,
        i + dec_str(n).len() <= s.len(),
        s.subrange(i, i + dec_str(n).len() as int) == dec_str(n),
        n <= bound,
        bound <= 65535,
    ensures
        dec_number(s, i, i + dec_str(n).len() as int, bound) == Some(n as int),
    decreases n,
{
    lemma_dec_char_val(n % 10);
    if n < 10 {
        lemma_dec_char_val(n);
        assert(s[i] == dec_str(n)[0]);
        assert(dec_digits_from(s, i + 1, i + 1, n as int, bound) == Some(n as int));
        assert(dec_digits_from(s, i, i + 1, 0, bound) == Some(n as int));
    } else {
        let l = dec_str(n / 10).len() as int;
        assert(s.subrange(i, i + l) =~= dec_str(n / 10));
        lemma_dec_number_of_dec_str(s, i, n / 10, bound);
        assert(s[i + l] == dec_str(n)[l]);
        assert(dec_str(n)[l] == dec_char(n % 10));
        vstd::arithmetic::div_mod::lemma_fundamental_div_mod(n as int, 10);
        lemma_dec_scan_snoc(s, i, i + l + 1, 0, bound, (n / 10) as int);
    }
}

/// The position of a character that nothing earlier in the window equals.
proof fn lemma_first_at_exact(s: Seq<char>, from: int, until: int, c: char, i: int)
    requires
        from <= i < until <= s.len(),
        s[i] == c,
        forall|j: int| from <= j < i ==> s[j] != c,
    ensures
        first_at(s, from, until, c) == Some(i),
    decreases i - from,
{
    if from < i {
        lemma_first_at_exact(s, from + 1, until, c, i);
    }
}

/// Index of the first occurrence of `c` in `chars` within `[from, until)`.
fn find_char(chars: &Vec<char>, from: usize, until: usize, c: char) -> (r: Option<usize>)
    requires
        until <= chars@.len(),
    ensures
        match first_at(chars@, from as int, until as int, c) {
            None => r is None,
            Some(i) => r matches Some(j) && j == i && from <= i < until && chars@[i] == c,
        },
{
    let mut i = from;
    while i < until
        invariant
            until <= chars@.len(),
            from <= i,
            first_at(chars@, from as int, until as int, c) == first_at(
                chars@,
                i as int,
                until as int,
                c,
            ),
        decreases until - i,
    {
        if chars[i] == c {
            return Some(i);
        }
        i = i + 1;
    }
    None
}

/// Value of the decimal digits `chars[start..end)`, within `bound`.
fn scan_dec(chars: &Vec<char>, start: usize, end: usize, bound: u32) -> (r: Option<u32>)
    requires
        end <= chars@.len(),
        bound <= 65535,
    ensures
        match dec_number(chars@, start as int, end as int, bound as int) {
            None => r is None,
            Some(v) => r matches Some(u) && u == v,
        },
        r matches Some(u) ==> u <= bound,
{
    if start >= end {
        return None;
    }
    let mut val: u32 = 0;
    let mut i = start;
    while i < end
        invariant
            start < end,
            end <= chars@.len(),
            bound <= 65535,
            val <= bound,
            dec_number(chars@, start as int, end as int, bound as int) == dec_digits_from(
                chars@,
                i as int,
                end as int,
                val as int,
                bound as int,
            ),
        decreases end - i,
    {
        let c = chars[i];
        if c < '0' || c > '9' {
            return None;
        }
        let d: u32 = (c as u32) - ('0' as u32);
        assert(d <= 9) by {
            assert('0' <= c <= '9');
        };
        if val > 6553 {
            return None;
        }
        val = val * 10 + d;
        if val > bound {
            return None;
        }
        i = i + 1;
    }
    Some(val)
}

/// Value of the lowercase hexadecimal digits `chars[start..end)`.
fn scan_hex(chars: &Vec<char>, start: usize, end: usize) -> (r: Option<u16>)
    requires
        end <= chars@.len(),
    ensures
        match hex_number(chars@, start as int, end as int) {
            None => r is None,
            Some(v) => r matches Some(u) && u == v,
        },
{
    if start >= end {
        return None;
    }
    let mut val: u32 = 0;
    let mut i = start;
    while i < end
        invariant
            start < end,
            end <= chars@.len(),
            val <= 65535,
            hex_number(chars@, start as int, end as int) == hex_digits_from(
                chars@,
                i as int,
                end as int,
                val as int,
            ),
        decreases end - i,
    {
        let c = chars[i];
        let d: u32 = if c >= '0' && c <= '9' {
            (c as u32) - ('0' as u32)
        } else if c >= 'a' && c <= 'f' {
            (c as u32) - ('a' as u32) + 10
        } else {
            return None;
        };
        assert(d <= 15);
        if val > 4095 {
            return None;
        }
        val = val * 16 + d;
        i = i + 1;
    }
    Some(val as u16)
}

fn parse_v4_candidate(chars: &Vec<char>) -> (r: Option<HostAddress>)
    ensures
        match v4_extract(chars@) {
            None => r is None,
            Some(a) => r matches Some(b) && b == a,
        },
{
    let n = chars.len();
    let colon = match find_char(chars, 0, n, ':') {
        Some(i) => i,
        None => {
            return None;
        },
    };
    let dot1 = match find_char(chars, 0, colon, '.') {
        Some(i) => i,
        None => {
            return None;
        },
    };
    let dot2 = match find_char(chars, dot1 + 1, colon, '.') {
        Some(i) => i,
        None => {
            return None;
        },
    };
    let dot3 = match find_char(chars, dot2 + 1, colon, '.') {
        Some(i) => i,
        None => {
            return None;
        },
    };
    let a = match scan_dec(chars, 0, dot1, 255) {
        Some(v) => v,
        None => {
            return None;
        },
    };
    let b = match scan_dec(chars, dot1 + 1, dot2, 255) {
        Some(v) => v,
        None => {
            return None;
        },
    };
    let c = match scan_dec(chars, dot2 + 1, dot3, 255) {
        Some(v) => v,
        None => {
            return None;
        },
    };
    let d = match scan_dec(chars, dot3 + 1, colon, 255) {
        Some(v) => v,
        None => {
            return None;
        },
    };
    let port = match scan_dec(chars, colon + 1, n, 65535) {
        Some(v) => v,
        None => {
            return None;
        },
    };
    Some(
        HostAddress {
            ip: IpAddress::V4 { a: a as u8, b: b as u8, c: c as u8, d: d as u8 },
            port: port as u16,
        },
    )
}

/// The integer values of a group vector.
pub open spec fn group_ints(g: Seq<u16>) -> Seq<int> {
    g.map_values(|x: u16| x as int)
}

fn parse_v6_candidate(chars: &Vec<char>) -> (r: Option<HostAddress>)
    ensures
        match v6_extract(chars@) {
            None => r is None,
            Some(a) => r matches Some(b) && b == a,
        },
{
    let n = chars.len();
    let rb = match find_char(chars, 0, n, ']') {
        Some(i) => i,
        None => {
            return None;
        },
    };
    let mut groups: Vec<u16> = Vec::new();
    let mut cur: usize = 1;
    let mut k: usize = 0;
    proof {
        assert(group_ints(groups@) + v6_groups_from(chars@, 1, rb as int, 8)->Some_0
            =~= v6_groups_from(chars@, 1, rb as int, 8)->Some_0);
    }
    while k < 8
        invariant
            n == chars@.len(),
            rb < n,
            k <= 8,
            first_at(chars@, 0, n as int, ']') == Some(rb as int),
            groups@.len() == k,
            ({
                let overall = v6_groups_from(chars@, 1, rb as int, 8);
                match v6_groups_from(chars@, cur as int, rb as int, (8 - k) as nat) {
                    Some(rest) => overall == Some(group_ints(groups@) + rest),
                    None => overall is None,
                }
            }),
        decreases 8 - k,
    {
        let end = if k < 7 {
            match find_char(chars, cur, rb, ':') {
                Some(i) => i,
                None => {
                    proof {
                        assert(8 - k > 1);
                        assert(v6_groups_from(chars@, cur as int, rb as int, (8 - k) as nat)
                            is None);
                    }
                    return None;
                },
            }
        } else {
            rb
        };
        proof {
            if k < 7 {
                assert(first_at(chars@, cur as int, rb as int, ':') == Some(end as int));
            }
        }
        let g = match scan_hex(chars, cur, end) {
            Some(v) => v,
            None => {
                proof {
                    assert(hex_number(chars@, cur as int, end as int) is None);
                    assert(v6_groups_from(chars@, cur as int, rb as int, (8 - k) as nat) is None);
                }
                return None;
            },
        };
        let ghost pre = groups@;
        groups.push(g);
        cur = end + 1;
        k = k + 1;
        proof {
            crate::topology::lemma_map_values_push(pre, g, |x: u16| x as int);
            let rest_now = v6_groups_from(chars@, cur as int, rb as int, (8 - k) as nat);
            if rest_now is Some {
                assert(group_ints(pre) + (seq![g as int] + rest_now->Some_0) =~= group_ints(
                    groups@,
                ) + rest_now->Some_0);
            }
        }
    }
    proof {
        assert(v6_groups_from(chars@, cur as int, rb as int, 0) == Some(Seq::<int>::empty()));
        assert(group_ints(groups@) + Seq::<int>::empty() =~= group_ints(groups@));
    }
    if rb + 1 >= n {
        return None;
    }
    if chars[rb + 1] != ':' {
        return None;
    }
    let port = match scan_dec(chars, rb + 2, n, 65535) {
        Some(v) => v,
        None => {
            return None;
        },
    };
    proof {
        let gs = v6_groups_from(chars@, 1, rb as int, 8)->Some_0;
        assert(gs == group_ints(groups@));
        assert(gs[0] == groups@[0] as int && gs[1] == groups@[1] as int && gs[2] == groups@[2]
            as int && gs[3] == groups@[3] as int && gs[4] == groups@[4] as int && gs[5]
            == groups@[5] as int && gs[6] == groups@[6] as int && gs[7] == groups@[7] as int);
    }
    Some(
        HostAddress {
            ip: IpAddress::V6 {
                groups: Ipv6Groups {
                    g0: groups[0],
                    g1: groups[1],
                    g2: groups[2],
                    g3: groups[3],
                    g4: groups[4],
                    g5: groups[5],
                    g6: groups[6],
                    g7: groups[7],
                },
            },
            port: port as u16,
        },
    )
}

/// A canonical IPv4 rendering parses back to its address: on the strings
/// the renderer produces for the IPv4 family, the parser is complete.
pub proof fn lemma_parse_canonical_v4(addr: HostAddress)
    requires
        addr.ip is V4,
    ensures
        parse_addr(addr_chars(addr)) == Some(addr),
{
    match addr.ip {
        IpAddress::V4 { a: o1, b: o2, c: o3, d: o4 } => {
            let s = addr_chars(addr);
            let d1 = dec_str(o1 as nat);
            let d2 = dec_str(o2 as nat);
            let d3 = dec_str(o3 as nat);
            let d4 = dec_str(o4 as nat);
            let dp = dec_str(addr.port as nat);
            let l1 = d1.len() as int;
            let l2 = d2.len() as int;
            let l3 = d3.len() as int;
            let l4 = d4.len() as int;
            let lp = dp.len() as int;
            let p1 = l1;
            let p2 = l1 + 1 + l2;
            let p3 = l1 + 1 + l2 + 1 + l3;
            let pc = l1 + 1 + l2 + 1 + l3 + 1 + l4;
            let n = s.len() as int;
            assert(ip_chars(addr.ip) == d1 + seq!['.'] + d2 + seq!['.'] + d3 + seq!['.'] + d4);
            assert(n == pc + 1 + lp);
            lemma_dec_str_digits(o1 as nat);
            lemma_dec_str_digits(o2 as nat);
            lemma_dec_str_digits(o3 as nat);
            lemma_dec_str_digits(o4 as nat);
            lemma_dec_str_digits(addr.port as nat);
            assert forall|j: int| 0 <= j < l1 implies s[j] == d1[j] by {}
            assert(s[p1] == '.');
            assert forall|j: int| 0 <= j < l2 implies s[p1 + 1 + j] == d2[j] by {}
            assert(s[p2] == '.');
            assert forall|j: int| 0 <= j < l3 implies s[p2 + 1 + j] == d3[j] by {}
            assert(s[p3] == '.');
            assert forall|j: int| 0 <= j < l4 implies s[p3 + 1 + j] == d4[j] by {}
            assert(s[pc] == ':');
            assert forall|j: int| 0 <= j < lp implies s[pc + 1 + j] == dp[j] by {}
            assert forall|j: int| 0 <= j < pc implies s[j] != ':' by {
                if j < p1 {
                    assert('0' <= s[j] <= '9');
                } else if j == p1 {
                } else if j < p2 {
                    assert(s[j] == d2[j - (p1 + 1)]);
                    assert('0' <= s[j] <= '9');
                } else if j == p2 {
                } else if j < p3 {
                    assert(s[j] == d3[j - (p2 + 1)]);
                    assert('0' <= s[j] <= '9');
                } else if j == p3 {
                } else {
                    assert(s[j] == d4[j - (p3 + 1)]);
                    assert('0' <= s[j] <= '9');
                }
            }
            lemma_first_at_exact(s, 0, n, ':', pc);
            assert forall|j: int| 0 <= j < p1 implies s[j] != '.' by {
                assert('0' <= s[j] <= '9');
            }
            lemma_first_at_exact(s, 0, pc, '.', p1);
            assert forall|j: int| p1 + 1 <= j < p2 implies s[j] != '.' by {
                assert(s[j] == d2[j - (p1 + 1)]);
                assert('0' <= s[j] <= '9');
            }
            lemma_first_at_exact(s, p1 + 1, pc, '.', p2);
            assert forall|j: int| p2 + 1 <= j < p3 implies s[j] != '.' by {
                assert(s[j] == d3[j - (p2 + 1)]);
                assert('0' <= s[j] <= '9');
            }
            lemma_first_at_exact(s, p2 + 1, pc, '.', p3);
            assert(s.subrange(0, p1) =~= d1);
            lemma_dec_number_of_dec_str(s, 0, o1 as nat, 255);
            assert(s.subrange(p1 + 1, p2) =~= d2);
            lemma_dec_number_of_dec_str(s, p1 + 1, o2 as nat, 255);
            assert(s.subrange(p2 + 1, p3) =~= d3);
            lemma_dec_number_of_dec_str(s, p2 + 1, o3 as nat, 255);
            assert(s.subrange(p3 + 1, pc) =~= d4);
            lemma_dec_number_of_dec_str(s, p3 + 1, o4 as nat, 255);
            assert(s.subrange(pc + 1, n) =~= dp);
            lemma_dec_number_of_dec_str(s, pc + 1, addr.port as nat, 65535);
            assert(v4_extract(s) == Some(addr));
            assert(s[0] != '[') by {
                assert('0' <= s[0] <= '9');
            }
            assert(parse_addr(s) == Some(addr));
        },
        IpAddress::V6 { .. } => {
            assert(false);
        },
    }
}

/// Every character of a hexadecimal rendering is a hexadecimal digit.
proof fn lemma_hex_str_digits(n: nat)
    ensures
        forall|j: int|
            0 <= j < hex_str(n).len() ==> (#[trigger] hex_digit_val(hex_str(n)[j])) is Some,
    decreases n,
{
    if n >= 16 {
        lemma_hex_str_digits(n / 16);
        assert forall|j: int|
            0 <= j < hex_str(n).len() implies (#[trigger] hex_digit_val(hex_str(n)[j]))
            is Some by {
            if j < hex_str(n / 16).len() {
                assert(hex_str(n)[j] == hex_str(n / 16)[j]);
            } else {
                lemma_hex_char_val(n % 16);
            }
        }
    } else {
        lemma_hex_char_val(n);
    }
}

/// The hexadecimal digit character of a value below sixteen carries exactly
/// that value.
proof fn lemma_hex_char_val(d: nat)
    requires
        d < 16,
    ensures
        hex_digit_val(hex_char(d)) == Some(d as int),
{
}

/// Scanning one more hexadecimal digit extends the running value.
proof fn lemma_hex_scan_snoc(s: Seq<char>, i: int, end: int, val: int, m: int)
    requires
        i <= end - 1,
        end <= s.len(),
        hex_digits_from(s, i, end - 1, val) == Some(m),
        hex_digit_val(s[end - 1]) is Some,
        m <= 4095,
    ensures
        hex_digits_from(s, i, end, val) == Some(m * 16 + hex_digit_val(s[end - 1])->Some_0),
    decreases end - i,
{
    if i == end - 1 {
        assert(m == val);
        let v2 = m * 16 + hex_digit_val(s[end - 1])->Some_0;
        assert(hex_digits_from(s, end, end, v2) == Some(v2));
    } else {
        assert(hex_digit_val(s[i]) is Some && val <= 4095);
        lemma_hex_scan_snoc(s, i + 1, end, val * 16 + hex_digit_val(s[i])->Some_0, m);
    }
}

/// A hexadecimal rendering embedded in a string scans back to its number.
proof fn lemma_hex_number_of_hex_str(s: Seq<char>, i: int, n: nat)
    requires
        0 <= i,
        i + hex_str(n).len() <= s.len(),
        s.subrange(i, i + hex_str(n).len() as int) == hex_str(n),
        n <= 65535,
    ensures
        hex_number(s, i, i + hex_str(n).len() as int) == Some(n as int),
    decreases n,
{
    lemma_hex_char_val(n % 16);
    if n < 16 {
        lemma_hex_char_val(n);
        assert(s[i] == hex_str(n)[0]);
        assert(hex_digits_from(s, i + 1, i + 1, n as int) == Some(n as int));
        assert(hex_digits_from(s, i, i + 1, 0) == Some(n as int));
    } else {
        let l = hex_str(n / 16).len() as int;
        assert(s.subrange(i, i + l) =~= hex_str(n / 16));
        lemma_hex_number_of_hex_str(s, i, n / 16);
        assert(s[i + l] == hex_str(n)[l]);
        assert(hex_str(n)[l] == hex_char(n % 16));
        vstd::arithmetic::div_mod::lemma_fundamental_div_mod(n as int, 16);
        lemma_hex_scan_snoc(s, i, i + l + 1, 0, (n / 16) as int);
    }
}

/// A canonical IPv6 rendering parses back to its address, as for IPv4.
#[verifier::rlimit(100)]
pub proof fn lemma_parse_canonical_v6(addr: HostAddress)
    requires
        addr.ip is V6,
    ensures
        parse_addr(addr_chars(addr)) == Some(addr),
{
    match addr.ip {
        IpAddress::V6 { groups } => {
            let s = addr_chars(addr);
            let h0 = hex_str(groups.g0 as nat);
            let m0 = h0.len() as int;
            let h1 = hex_str(groups.g1 as nat);
            let m1 = h1.len() as int;
            let h2 = hex_str(groups.g2 as nat);
            let m2 = h2.len() as int;
            let h3 = hex_str(groups.g3 as nat);
            let m3 = h3.len() as int;
            let h4 = hex_str(groups.g4 as nat);
            let m4 = h4.len() as int;
            let h5 = hex_str(groups.g5 as nat);
            let m5 = h5.len() as int;
            let h6 = hex_str(groups.g6 as nat);
            let m6 = h6.len() as int;
            let h7 = hex_str(groups.g7 as nat);
            let m7 = h7.len() as int;
            let dp = dec_str(addr.port as nat);
            let lp = dp.len() as int;
            let q0 = 1int;
            let q1 = q0 + m0 + 1;
            let q2 = q1 + m1 + 1;
            let q3 = q2 + m2 + 1;
            let q4 = q3 + m3 + 1;
            let q5 = q4 + m4 + 1;
            let q6 = q5 + m5 + 1;
            let q7 = q6 + m6 + 1;
            let rb = q7 + m7;
            let n = s.len() as int;
            let a0 = seq!['['] + h0;
            let a1 = a0 + seq![':'] + h1;
            let a2 = a1 + seq![':'] + h2;
            let a3 = a2 + seq![':'] + h3;
            let a4 = a3 + seq![':'] + h4;
            let a5 = a4 + seq![':'] + h5;
            let a6 = a5 + seq![':'] + h6;
            let a7 = a6 + seq![':'] + h7;
            let ip = a7 + seq![']'];
            assert(ip_chars(addr.ip) == ip);
            assert(s == ip + seq![':'] + dp);
            assert(a0.len() == q0 + m0);
            assert(a1.len() == q1 + m1);
            assert(a2.len() == q2 + m2);
            assert(a3.len() == q3 + m3);
            assert(a4.len() == q4 + m4);
            assert(a5.len() == q5 + m5);
            assert(a6.len() == q6 + m6);
            assert(a7.len() == q7 + m7);
            assert(n == rb + 2 + lp);
            assert forall|j: int| 0 <= j < a0.len() implies a1[j] == a0[j] by {}
            assert forall|j: int| 0 <= j < a1.len() implies a2[j] == a1[j] by {}
            assert forall|j: int| 0 <= j < a2.len() implies a3[j] == a2[j] by {}
            assert forall|j: int| 0 <= j < a3.len() implies a4[j] == a3[j] by {}
            assert forall|j: int| 0 <= j < a4.len() implies a5[j] == a4[j] by {}
            assert forall|j: int| 0 <= j < a5.len() implies a6[j] == a5[j] by {}
            assert forall|j: int| 0 <= j < a6.len() implies a7[j] == a6[j] by {}
            assert forall|j: int| 0 <= j < a7.len() implies ip[j] == a7[j] by {}
            assert forall|j: int| 0 <= j < ip.len() implies s[j] == ip[j] by {}
            assert forall|j: int| 0 <= j < m0 implies a0[q0 + j] == h0[j] by {}
            assert(a1[q0 + m0] == ':');
            assert forall|j: int| 0 <= j < m1 implies a1[q1 + j] == h1[j] by {}
            assert(a2[q1 + m1] == ':');
            assert forall|j: int| 0 <= j < m2 implies a2[q2 + j] == h2[j] by {}
            assert(a3[q2 + m2] == ':');
            assert forall|j: int| 0 <= j < m3 implies a3[q3 + j] == h3[j] by {}
            assert(a4[q3 + m3] == ':');
            assert forall|j: int| 0 <= j < m4 implies a4[q4 + j] == h4[j] by {}
            assert(a5[q4 + m4] == ':');
            assert forall|j: int| 0 <= j < m5 implies a5[q5 + j] == h5[j] by {}
            assert(a6[q5 + m5] == ':');
            assert forall|j: int| 0 <= j < m6 implies a6[q6 + j] == h6[j] by {}
            assert(a7[q6 + m6] == ':');
            assert forall|j: int| 0 <= j < m7 implies a7[q7 + j] == h7[j] by {}
            assert forall|j: int| 0 <= j < m0 implies s[q0 + j] == h0[j] by {}
            assert(s[q0 + m0] == ':');
            assert forall|j: int| 0 <= j < m1 implies s[q1 + j] == h1[j] by {}
            assert(s[q1 + m1] == ':');
            assert forall|j: int| 0 <= j < m2 implies s[q2 + j] == h2[j] by {}
            assert(s[q2 + m2] == ':');
            assert forall|j: int| 0 <= j < m3 implies s[q3 + j] == h3[j] by {}
            assert(s[q3 + m3] == ':');
            assert forall|j: int| 0 <= j < m4 implies s[q4 + j] == h4[j] by {}
            assert(s[q4 + m4] == ':');
            assert forall|j: int| 0 <= j < m5 implies s[q5 + j] == h5[j] by {}
            assert(s[q5 + m5] == ':');
            assert forall|j: int| 0 <= j < m6 implies s[q6 + j] == h6[j] by {}
            assert(s[q6 + m6] == ':');
            assert forall|j: int| 0 <= j < m7 implies s[q7 + j] == h7[j] by {}
            assert(s[0] == '[');
            assert(s[rb] == ']');
            assert(s[rb + 1] == ':');
            assert forall|j: int| 0 <= j < lp implies s[rb + 2 + j] == dp[j] by {}
            lemma_hex_str_digits(groups.g0 as nat);
            lemma_hex_str_digits(groups.g1 as nat);
            lemma_hex_str_digits(groups.g2 as nat);
            lemma_hex_str_digits(groups.g3 as nat);
            lemma_hex_str_digits(groups.g4 as nat);
            lemma_hex_str_digits(groups.g5 as nat);
            lemma_hex_str_digits(groups.g6 as nat);
            lemma_hex_str_digits(groups.g7 as nat);
            lemma_dec_str_digits(addr.port as nat);
            assert forall|j: int| 0 <= j < rb implies s[j] != ']' by {
                if j == 0 {
                } else if q0 <= j < q0 + m0 {
                    assert(s[j] == h0[j - q0]);
                    assert(hex_digit_val(s[j]) is Some);
                } else if q1 <= j < q1 + m1 {
                    assert(s[j] == h1[j - q1]);
                    assert(hex_digit_val(s[j]) is Some);
                } else if q2 <= j < q2 + m2 {
                    assert(s[j] == h2[j - q2]);
                    assert(hex_digit_val(s[j]) is Some);
                } else if q3 <= j < q3 + m3 {
                    assert(s[j] == h3[j - q3]);
                    assert(hex_digit_val(s[j]) is Some);
                } else if q4 <= j < q4 + m4 {
                    assert(s[j] == h4[j - q4]);
                    assert(hex_digit_val(s[j]) is Some);
                } else if q5 <= j < q5 + m5 {
                    assert(s[j] == h5[j - q5]);
                    assert(hex_digit_val(s[j]) is Some);
                } else if q6 <= j < q6 + m6 {
                    assert(s[j] == h6[j - q6]);
                    assert(hex_digit_val(s[j]) is Some);
                } else if q7 <= j < q7 + m7 {
                    assert(s[j] == h7[j - q7]);
                    assert(hex_digit_val(s[j]) is Some);
                }
            }
            lemma_first_at_exact(s, 0, n, ']', rb);
            assert forall|j: int| q0 <= j < q0 + m0 implies s[j] != ':' by {
                assert(s[j] == h0[j - q0]);
                assert(hex_digit_val(s[j]) is Some);
            }
            lemma_first_at_exact(s, q0, rb, ':', q0 + m0);
            assert forall|j: int| q1 <= j < q1 + m1 implies s[j] != ':' by {
                assert(s[j] == h1[j - q1]);
                assert(hex_digit_val(s[j]) is Some);
            }
            lemma_first_at_exact(s, q1, rb, ':', q1 + m1);
            assert forall|j: int| q2 <= j < q2 + m2 implies s[j] != ':' by {
                assert(s[j] == h2[j - q2]);
                assert(hex_digit_val(s[j]) is Some);
            }
            lemma_first_at_exact(s, q2, rb, ':', q2 + m2);
            assert forall|j: int| q3 <= j < q3 + m3 implies s[j] != ':' by {
                assert(s[j] == h3[j - q3]);
                assert(hex_digit_val(s[j]) is Some);
            }
            lemma_first_at_exact(s, q3, rb, ':', q3 + m3);
            assert forall|j: int| q4 <= j < q4 + m4 implies s[j] != ':' by {
                assert(s[j] == h4[j - q4]);
                assert(hex_digit_val(s[j]) is Some);
            }
            lemma_first_at_exact(s, q4, rb, ':', q4 + m4);
            assert forall|j: int| q5 <= j < q5 + m5 implies s[j] != ':' by {
                assert(s[j] == h5[j - q5]);
                assert(hex_digit_val(s[j]) is Some);
            }
            lemma_first_at_exact(s, q5, rb, ':', q5 + m5);
            assert forall|j: int| q6 <= j < q6 + m6 implies s[j] != ':' by {
                assert(s[j] == h6[j - q6]);
                assert(hex_digit_val(s[j]) is Some);
            }
            lemma_first_at_exact(s, q6, rb, ':', q6 + m6);
            assert(s.subrange(q0, q0 + m0) =~= h0);
            lemma_hex_number_of_hex_str(s, q0, groups.g0 as nat);
            assert(s.subrange(q1, q1 + m1) =~= h1);
            lemma_hex_number_of_hex_str(s, q1, groups.g1 as nat);
            assert(s.subrange(q2, q2 + m2) =~= h2);
            lemma_hex_number_of_hex_str(s, q2, groups.g2 as nat);
            assert(s.subrange(q3, q3 + m3) =~= h3);
            lemma_hex_number_of_hex_str(s, q3, groups.g3 as nat);
            assert(s.subrange(q4, q4 + m4) =~= h4);
            lemma_hex_number_of_hex_str(s, q4, groups.g4 as nat);
            assert(s.subrange(q5, q5 + m5) =~= h5);
            lemma_hex_number_of_hex_str(s, q5, groups.g5 as nat);
            assert(s.subrange(q6, q6 + m6) =~= h6);
            lemma_hex_number_of_hex_str(s, q6, groups.g6 as nat);
            assert(s.subrange(q7, q7 + m7) =~= h7);
            lemma_hex_number_of_hex_str(s, q7, groups.g7 as nat);
            assert(s.subrange(rb + 2, n) =~= dp);
            lemma_dec_number_of_dec_str(s, rb + 2, addr.port as nat, 65535);
            assert(v6_groups_from(s, rb + 1, rb, 0) == Some(Seq::<int>::empty()));
            assert(seq![groups.g7 as int] + Seq::<int>::empty() =~= seq![groups.g7 as int]);
            assert(v6_groups_from(s, q7, rb, 1) == Some(seq![groups.g7 as int]));
            assert(seq![groups.g6 as int] + seq![groups.g7 as int] =~= seq![groups.g6 as int, groups.g7 as int]);
            assert(v6_groups_from(s, q6, rb, 2) == Some(seq![groups.g6 as int, groups.g7 as int]));
            assert(seq![groups.g5 as int] + seq![groups.g6 as int, groups.g7 as int] =~= seq![groups.g5 as int, groups.g6 as int, groups.g7 as int]);
            assert(v6_groups_from(s, q5, rb, 3) == Some(seq![groups.g5 as int, groups.g6 as int, groups.g7 as int]));
            assert(seq![groups.g4 as int] + seq![groups.g5 as int, groups.g6 as int, groups.g7 as int] =~= seq![groups.g4 as int, groups.g5 as int, groups.g6 as int, groups.g7 as int]);
            assert(v6_groups_from(s, q4, rb, 4) == Some(seq![groups.g4 as int, groups.g5 as int, groups.g6 as int, groups.g7 as int]));
            assert(seq![groups.g3 as int] + seq![groups.g4 as int, groups.g5 as int, groups.g6 as int, groups.g7 as int] =~= seq![groups.g3 as int, groups.g4 as int, groups.g5 as int, groups.g6 as int, groups.g7 as int]);
            assert(v6_groups_from(s, q3, rb, 5) == Some(seq![groups.g3 as int, groups.g4 as int, groups.g5 as int, groups.g6 as int, groups.g7 as int]));
            assert(seq![groups.g2 as int] + seq![groups.g3 as int, groups.g4 as int, groups.g5 as int, groups.g6 as int, groups.g7 as int] =~= seq![groups.g2 as int, groups.g3 as int, groups.g4 as int, groups.g5 as int, groups.g6 as int, groups.g7 as int]);
            assert(v6_groups_from(s, q2, rb, 6) == Some(seq![groups.g2 as int, groups.g3 as int, groups.g4 as int, groups.g5 as int, groups.g6 as int, groups.g7 as int]));
            assert(seq![groups.g1 as int] + seq![groups.g2 as int, groups.g3 as int, groups.g4 as int, groups.g5 as int, groups.g6 as int, groups.g7 as int] =~= seq![groups.g1 as int, groups.g2 as int, groups.g3 as int, groups.g4 as int, groups.g5 as int, groups.g6 as int, groups.g7 as int]);
            assert(v6_groups_from(s, q1, rb, 7) == Some(seq![groups.g1 as int, groups.g2 as int, groups.g3 as int, groups.g4 as int, groups.g5 as int, groups.g6 as int, groups.g7 as int]));
            assert(seq![groups.g0 as int] + seq![groups.g1 as int, groups.g2 as int, groups.g3 as int, groups.g4 as int, groups.g5 as int, groups.g6 as int, groups.g7 as int] =~= seq![groups.g0 as int, groups.g1 as int, groups.g2 as int, groups.g3 as int, groups.g4 as int, groups.g5 as int, groups.g6 as int, groups.g7 as int]);
            assert(v6_groups_from(s, q0, rb, 8) == Some(seq![groups.g0 as int, groups.g1 as int, groups.g2 as int, groups.g3 as int, groups.g4 as int, groups.g5 as int, groups.g6 as int, groups.g7 as int]));
            assert(v6_extract(s) == Some(addr));
            assert(parse_addr(s) == Some(addr));
        },
        IpAddress::V4 { .. } => {
            assert(false);
        },
    }
}

/// Every canonical rendering parses back to its address: the parser is
/// complete on the strings the renderer produces, for both families.
pub proof fn lemma_parse_canonical(addr: HostAddress)
    ensures
        parse_addr(addr_chars(addr)) == Some(addr),
{
    if addr.ip is V4 {
        lemma_parse_canonical_v4(addr);
    } else {
        lemma_parse_canonical_v6(addr);
    }
}

/// What the parser accepts, exactly: a text denotes an address if and only
/// if it is the canonical rendering of one.
pub proof fn lemma_parse_addr_characterization(s: Seq<char>)
    ensures
        parse_addr(s) is Some <==> exists|a: HostAddress| s == #[trigger] addr_chars(a),
{
    if parse_addr(s) is Some {
        let a = parse_addr(s)->Some_0;
        assert(s == addr_chars(a));
    }
    if exists|a: HostAddress| s == #[trigger] addr_chars(a) {
        let a = choose|a: HostAddress| s == #[trigger] addr_chars(a);
        lemma_parse_canonical(a);
    }
}

/// Reads a socket address from its canonical text form: the result is
/// exactly what `parse_addr` says the text denotes, so `Some` comes if and
/// only if the text is the canonical rendering of an address, and rendering
/// the result reproduces the input.
pub fn parse_host_address(s: &String) -> (r: Option<HostAddress>)
    ensures
        r == parse_addr(s@),
        r matches Some(addr) ==> s@ == addr_chars(addr),
{
    let chars = chars_of(s);
    let candidate = if chars.len() > 0 && chars[0] == '[' {
        parse_v6_candidate(&chars)
    } else {
        parse_v4_candidate(&chars)
    };
    match candidate {
        None => None,
        Some(addr) => {
            let rendered = host_address_string(&addr);
            if rendered == *s {
                Some(addr)
            } else {
                None
            }
        },
    }
}

} // verus!
