//! Text primitives for the ingestion format: ASCII whitespace trimming,
//! quote-aware splitting on a separator character, and decimal parsing.

use vstd::prelude::*;
use vstd::string::*;

verus! {

/// ASCII whitespace, as stripped from the source blob and from country codes.
pub open spec fn is_ws(c: char) -> bool {
    c == ' ' || c == '\t' || c == '\r' || c == '\n'
}

pub open spec fn trim_front(s: Seq<char>) -> Seq<char>
    decreases s.len(),
{
    if s.len() > 0 && is_ws(s[0]) {
        trim_front(s.skip(1))
    } else {
        s
    }
}

pub open spec fn trim_back(s: Seq<char>) -> Seq<char>
    decreases s.len(),
{
    if s.len() > 0 && is_ws(s.last()) {
        trim_back(s.drop_last())
    } else {
        s
    }
}

/// The sequence with leading and trailing ASCII whitespace removed.
pub open spec fn trim_seq(s: Seq<char>) -> Seq<char> {
    trim_back(trim_front(s))
}

proof fn lemma_trim_front_at(s: Seq<char>, a: int)
    requires
        0 <= a <= s.len(),
        forall|i: int| 0 <= i < a ==> is_ws(s[i]),
        a < s.len() ==> !is_ws(s[a]),
    ensures
        trim_front(s) == s.skip(a),
    decreases a,
{
    if a == 0 {
        assert(s.skip(0) =~= s);
    } else {
        lemma_trim_front_at(s.skip(1), a - 1);
        assert(s.skip(1).skip(a - 1) =~= s.skip(a));
    }
}

proof fn lemma_trim_back_at(s: Seq<char>, b: int)
    requires
        0 <= b <= s.len(),
        forall|i: int| b <= i < s.len() ==> is_ws(s[i]),
        b > 0 ==> !is_ws(s[b - 1]),
    ensures
        trim_back(s) == s.take(b),
    decreases s.len() - b,
{
    if b == s.len() {
        if s.len() > 0 && is_ws(s.last()) {
            lemma_trim_back_at(s.drop_last(), b - 1);
            assert(s.drop_last().take(b - 1) =~= s.take(b - 1));
            assert(false);
        } else {
            assert(s.take(b) =~= s);
        }
    } else {
        lemma_trim_back_at(s.drop_last(), b);
        assert(s.drop_last().take(b) =~= s.take(b));
    }
}

/// Whether `c` is ASCII whitespace.
fn is_ws_char(c: char) -> (r: bool)
    ensures
        r == is_ws(c),
{
    c == ' ' || c == '\t' || c == '\r' || c == '\n'
}

/// A copy of `s` with leading and trailing ASCII whitespace removed.
pub fn trim_str(s: &str) -> (r: String)
    ensures
        r@ == trim_seq(s@),
{
    let len = s.unicode_len();
    let mut a: usize = 0;
    while a < len && is_ws_char(s.get_char(a))
        invariant
            0 <= a <= len,
            len == s@.len(),
            forall|i: int| 0 <= i < a ==> is_ws(s@[i]),
        decreases len - a,
    {
        a = a + 1;
    }
    let mut b: usize = len;
    while b > a && is_ws_char(s.get_char(b - 1))
        invariant
            a <= b <= len,
            len == s@.len(),
            forall|i: int| b <= i < len ==> is_ws(s@[i]),
        decreases b,
    {
        b = b - 1;
    }
    proof {
        lemma_trim_front_at(s@, a as int);
        let t = s@.skip(a as int);
        lemma_trim_back_at(t, b - a);
        assert(t.take(b - a) =~= s@.subrange(a as int, b as int));
    }
    String::from_str(s.substring_char(a, b))
}

/// Whether a scan of `s` that began with quoting state `inq` ends inside
/// a double-quoted region.
pub open spec fn quote_from(s: Seq<char>, inq: bool) -> bool
    decreases s.len(),
{
    if s.len() == 0 {
        inq
    } else {
        quote_from(s.skip(1), if s[0] == '"' { !inq } else { inq })
    }
}

/// Split `s` on `sep`, except where `sep` stands inside a double-quoted
/// region. Quote characters are kept in the parts. Always yields at least
/// one part; an empty sequence yields one empty part.
pub open spec fn split_from(s: Seq<char>, sep: char, inq: bool) -> Seq<Seq<char>>
    decreases s.len(),
{
    if s.len() == 0 {
        seq![Seq::<char>::empty()]
    } else if s[0] == sep && !inq {
        seq![Seq::<char>::empty()] + split_from(s.skip(1), sep, false)
    } else {
        let rest = split_from(s.skip(1), sep, if s[0] == '"' { !inq } else { inq });
        seq![seq![s[0]] + rest[0]] + rest.skip(1)
    }
}

/// Split `s` on `sep`, starting outside any quoted region.
pub open spec fn split_sep(s: Seq<char>, sep: char) -> Seq<Seq<char>> {
    split_from(s, sep, false)
}

proof fn lemma_split_from_len(s: Seq<char>, sep: char, inq: bool)
    ensures
        split_from(s, sep, inq).len() >= 1,
    decreases s.len(),
{
    if s.len() == 0 {
    } else if s[0] == sep && !inq {
        lemma_split_from_len(s.skip(1), sep, false);
    } else {
        lemma_split_from_len(s.skip(1), sep, if s[0] == '"' { !inq } else { inq });
    }
}

/// How one appended character extends a split: a splitting separator opens
/// a new empty part, any other character extends the last part.
proof fn lemma_split_from_push(s: Seq<char>, c: char, sep: char, inq: bool)
    requires
        sep != '"',
    ensures
        quote_from(s.push(c), inq) == (if c == '"' {
            !quote_from(s, inq)
        } else {
            quote_from(s, inq)
        }),
        split_from(s.push(c), sep, inq) == (if c == sep && !quote_from(s, inq) {
            split_from(s, sep, inq).push(Seq::<char>::empty())
        } else {
            let r = split_from(s, sep, inq);
            r.update(r.len() - 1, r.last().push(c))
        }),
    decreases s.len(),
{
    lemma_split_from_len(s, sep, inq);
    if s.len() == 0 {
        reveal_with_fuel(split_from, 3);
        reveal_with_fuel(quote_from, 3);
        assert(s.push(c).skip(1) =~= Seq::<char>::empty());
        assert(s.push(c)[0] == c);
        if c == sep && !inq {
            assert(split_from(s.push(c), sep, inq) =~~= split_from(s, sep, inq).push(
                Seq::<char>::empty(),
            ));
        } else {
            let r = split_from(s, sep, inq);
            assert(seq![c] + Seq::<char>::empty() =~= r.last().push(c));
            assert(split_from(s.push(c), sep, inq) =~~= r.update(r.len() - 1, r.last().push(c)));
        }
    } else {
        let t = s.skip(1);
        let h = s[0];
        assert(s.push(c).skip(1) =~= t.push(c));
        assert(s.push(c)[0] == h);
        if h == sep && !inq {
            lemma_split_from_push(t, c, sep, false);
            lemma_split_from_len(t, sep, false);
            let rt = split_from(t, sep, false);
            if c == sep && !quote_from(t, false) {
                assert(split_from(s.push(c), sep, inq) =~~= split_from(s, sep, inq).push(
                    Seq::<char>::empty(),
                ));
            } else {
                let r = split_from(s, sep, inq);
                assert(r == seq![Seq::<char>::empty()] + rt);
                assert(r.len() - 1 == rt.len());
                assert(r.last() == rt.last());
                assert(split_from(s.push(c), sep, inq) =~~= r.update(r.len() - 1, r.last().push(c)));
            }
        } else {
            let q2 = if h == '"' { !inq } else { inq };
            lemma_split_from_push(t, c, sep, q2);
            lemma_split_from_len(t, sep, q2);
            let rt = split_from(t, sep, q2);
            if c == sep && !quote_from(t, q2) {
                assert(rt.push(Seq::<char>::empty())[0] == rt[0]);
                assert(split_from(s.push(c), sep, inq) =~~= split_from(s, sep, inq).push(
                    Seq::<char>::empty(),
                ));
            } else {
                let r = split_from(s, sep, inq);
                assert(r == seq![seq![h] + rt[0]] + rt.skip(1));
                let rt2 = rt.update(rt.len() - 1, rt.last().push(c));
                assert(split_from(s.push(c), sep, inq) == seq![seq![h] + rt2[0]] + rt2.skip(1));
                if rt.len() == 1 {
                    assert(rt2[0] == rt[0].push(c));
                    assert(seq![h] + rt[0].push(c) =~= (seq![h] + rt[0]).push(c));
                    assert(r.last() == seq![h] + rt[0]);
                    assert(split_from(s.push(c), sep, inq) =~~= r.update(
                        r.len() - 1,
                        r.last().push(c),
                    ));
                } else {
                    assert(rt2[0] == rt[0]);
                    assert(r.last() == rt.last());
                    assert(split_from(s.push(c), sep, inq) =~~= r.update(
                        r.len() - 1,
                        r.last().push(c),
                    ));
                }
            }
        }
    }
}

/// Split `s` on `sep`, keeping separators that stand inside double quotes.
pub fn split_str(s: &str, sep: char) -> (parts: Vec<String>)
    requires
        sep != '"',
    ensures
        parts.deep_view() == split_sep(s@, sep),
        parts.len() >= 1,
{
    let len = s.unicode_len();
    let mut parts: Vec<String> = Vec::new();
    let mut start: usize = 0;
    let mut inq: bool = false;
    let mut i: usize = 0;
    proof {
        assert(s@.take(0) =~= Seq::<char>::empty());
        assert(parts.deep_view().push(s@.subrange(0, 0)) =~~= split_from(s@.take(0), sep, false));
    }
    while i < len
        invariant
            sep != '"',
            0 <= start as int <= i as int <= len as int,
            len == s@.len(),
            inq == quote_from(s@.take(i as int), false),
            parts.deep_view().push(s@.subrange(start as int, i as int)) == split_from(
                s@.take(i as int),
                sep,
                false,
            ),
        decreases len - i,
    {
        let c = s.get_char(i);
        proof {
            assert(s@.take(i + 1) =~= s@.take(i as int).push(s@[i as int]));
            lemma_split_from_push(s@.take(i as int), s@[i as int], sep, false);
            lemma_split_from_len(s@.take(i as int), sep, false);
        }
        if c == sep && !inq {
            let piece = String::from_str(s.substring_char(start, i));
            parts.push(piece);
            start = i + 1;
            proof {
                let prev = split_from(s@.take(i as int), sep, false);
                assert(parts.deep_view().push(s@.subrange(i + 1, i + 1)) =~~= prev.push(
                    Seq::<char>::empty(),
                ));
            }
        } else {
            if c == '"' {
                inq = !inq;
            }
            proof {
                let prev = split_from(s@.take(i as int), sep, false);
                assert(prev.last() == s@.subrange(start as int, i as int));
                assert(s@.subrange(start as int, i as int).push(s@[i as int]) =~= s@.subrange(
                    start as int,
                    i + 1,
                ));
                assert(parts.deep_view().push(s@.subrange(start as int, i + 1)) =~~= prev.update(
                    prev.len() - 1,
                    prev.last().push(s@[i as int]),
                ));
            }
        }
        i = i + 1;
    }
    let last_piece = String::from_str(s.substring_char(start, len));
    parts.push(last_piece);
    proof {
        assert(s@.take(len as int) =~= s@);
        assert(parts.deep_view() =~~= split_sep(s@, sep));
    }
    parts
}

/// A decimal digit.
pub open spec fn is_digit(c: char) -> bool {
    48 <= c as int <= 57
}

pub open spec fn digit_val(c: char) -> int {
    c as int - 48
}

/// A non-empty sequence of decimal digits.
pub open spec fn is_digits(s: Seq<char>) -> bool {
    s.len() > 0 && forall|i: int| 0 <= i < s.len() ==> is_digit(s[i])
}

/// The value of a sequence of decimal digits, most significant first.
pub open spec fn dec_val(s: Seq<char>) -> int
    decreases s.len(),
{
    if s.len() == 0 {
        0
    } else {
        dec_val(s.drop_last()) * 10 + digit_val(s.last())
    }
}

/// What a non-negative decimal field parses to: its value if it is all
/// digits and fits in a `u64`, nothing otherwise.
pub open spec fn dec_parse(s: Seq<char>) -> Option<u64> {
    if is_digits(s) && dec_val(s) <= u64::MAX {
        Some(dec_val(s) as u64)
    } else {
        None
    }
}

proof fn lemma_dec_val_nonneg(s: Seq<char>)
    requires
        forall|i: int| 0 <= i < s.len() ==> is_digit(s[i]),
    ensures
        dec_val(s) >= 0,
    decreases s.len(),
{
    if s.len() > 0 {
        lemma_dec_val_nonneg(s.drop_last());
    }
}

proof fn lemma_dec_val_prefix(s: Seq<char>, j: int)
    requires
        forall|i: int| 0 <= i < s.len() ==> is_digit(s[i]),
        0 <= j <= s.len(),
    ensures
        dec_val(s.take(j)) <= dec_val(s),
    decreases s.len(),
{
    if j == s.len() {
        assert(s.take(j) =~= s);
    } else {
        assert(s.drop_last().take(j) =~= s.take(j));
        lemma_dec_val_prefix(s.drop_last(), j);
        lemma_dec_val_nonneg(s.drop_last());
    }
}

/// Parse a non-negative decimal integer; `None` on an empty string, any
/// non-digit character, or a value past `u64::MAX`.
pub fn parse_u64(s: &str) -> (r: Option<u64>)
    ensures
        r == dec_parse(s@),
{
    let len = s.unicode_len();
    if len == 0 {
        return None;
    }
    let mut acc: u64 = 0;
    let mut i: usize = 0;
    proof {
        assert(s@.take(0) =~= Seq::<char>::empty());
    }
    while i < len
        invariant
            0 < len == s@.len(),
            0 <= i <= len,
            forall|k: int| 0 <= k < i ==> is_digit(s@[k]),
            acc as int == dec_val(s@.take(i as int)),
        decreases len - i,
    {
        let c = s.get_char(i);
        let v = c as u32;
        if v < 48 || v > 57 {
            assert(!is_digit(s@[i as int]));
            return None;
        }
        let d = (v - 48) as u64;
        proof {
            assert(s@.take(i + 1).drop_last() =~= s@.take(i as int));
            assert(s@.take(i + 1).last() == s@[i as int]);
        }
        if acc > 1844674407370955161u64 || (acc == 1844674407370955161u64 && d > 5) {
            proof {
                assert(dec_val(s@.take(i + 1)) > u64::MAX);
                if is_digits(s@) {
                    lemma_dec_val_prefix(s@, i + 1);
                }
            }
            return None;
        }
        acc = acc * 10 + d;
        i = i + 1;
    }
    proof {
        assert(s@.take(len as int) =~= s@);
    }
    Some(acc)
}

/// One octet of a dotted-quad address: one to three digits, value at most 255.
pub open spec fn parse_octet(s: Seq<char>) -> Option<u32> {
    if is_digits(s) && s.len() <= 3 && 0 <= dec_val(s) <= 255 {
        Some(dec_val(s) as u32)
    } else {
        None
    }
}

fn parse_octet_str(s: &str) -> (r: Option<u32>)
    ensures
        r == parse_octet(s@),
{
    if s.unicode_len() > 3 {
        return None;
    }
    match parse_u64(s) {
        None => None,
        Some(v) => {
            proof {
                lemma_dec_val_nonneg(s@);
            }
            if v <= 255 {
                Some(v as u32)
            } else {
                None
            }
        },
    }
}

/// The 32-bit value of an address given as four octets.
pub open spec fn ipv4_from_octets(a: int, b: int, c: int, d: int) -> u32 {
    (a * 0x1000000 + b * 0x10000 + c * 0x100 + d) as u32
}

/// What a dotted-quad address field parses to: four octets separated by
/// periods, each one to three digits and at most 255.
pub open spec fn parse_ipv4(s: Seq<char>) -> Option<u32> {
    let ps = split_sep(s, '.');
    if ps.len() == 4 && parse_octet(ps[0]) is Some && parse_octet(ps[1]) is Some && parse_octet(
        ps[2],
    ) is Some && parse_octet(ps[3]) is Some {
        Some(
            ipv4_from_octets(
                parse_octet(ps[0])->Some_0 as int,
                parse_octet(ps[1])->Some_0 as int,
                parse_octet(ps[2])->Some_0 as int,
                parse_octet(ps[3])->Some_0 as int,
            ),
        )
    } else {
        None
    }
}

/// The character of one decimal digit.
pub open spec fn digit_char(d: int) -> char {
    if d == 0 {
        '0'
    } else if d == 1 {
        '1'
    } else if d == 2 {
        '2'
    } else if d == 3 {
        '3'
    } else if d == 4 {
        '4'
    } else if d == 5 {
        '5'
    } else if d == 6 {
        '6'
    } else if d == 7 {
        '7'
    } else if d == 8 {
        '8'
    } else {
        '9'
    }
}

/// The decimal digits of `n`, most significant first, without leading
/// zeros.
pub open spec fn dec_digits(n: nat) -> Seq<char>
    decreases n,
{
    if n < 10 {
        seq![digit_char(n as int)]
    } else {
        dec_digits(n / 10).push(digit_char((n % 10) as int))
    }
}

/// The dotted-quad text of a 32-bit address, one decimal number per octet.
pub open spec fn render_ipv4(a: u32) -> Seq<char> {
    dec_digits((a as nat) / 0x1000000) + seq!['.'] + dec_digits(((a as nat) / 0x10000) % 0x100)
        + seq!['.'] + dec_digits(((a as nat) / 0x100) % 0x100) + seq!['.'] + dec_digits(
        (a as nat) % 0x100,
    )
}

/// Rendered digits read back as the number they were rendered from.
pub proof fn lemma_dec_digits_value(n: nat)
    ensures
        is_digits(dec_digits(n)),
        dec_val(dec_digits(n)) == n,
    decreases n,
{
    if n < 10 {
        reveal_with_fuel(dec_val, 2);
        assert(seq![digit_char(n as int)].drop_last() =~= Seq::<char>::empty());
    } else {
        lemma_dec_digits_value(n / 10);
        let w = dec_digits(n / 10);
        assert(w.push(digit_char((n % 10) as int)).drop_last() =~= w);
        assert(dec_val(w.push(digit_char((n % 10) as int))) == dec_val(w) * 10 + (n % 10));
        assert(n == (n / 10) * 10 + n % 10);
    }
}

fn push_digit(out: &mut String, d: u32)
    requires
        d < 10,
    ensures
        final(out)@ == old(out)@.push(digit_char(d as int)),
{
    let table = "0123456789";
    proof {
        reveal_strlit("0123456789");
        assert(table.is_ascii());
        assert(table@[d as int] == digit_char(d as int));
    }
    let s = table.substring_ascii(d as usize, d as usize + 1);
    proof {
        assert(s@ =~= seq![digit_char(d as int)]);
    }
    out.append(s);
}

fn push_decimal(out: &mut String, n: u32)
    ensures
        final(out)@ == old(out)@ + dec_digits(n as nat),
    decreases n,
{
    if n < 10 {
        push_digit(out, n);
        proof {
            assert(old(out)@.push(digit_char(n as int)) =~= old(out)@ + dec_digits(n as nat));
        }
    } else {
        push_decimal(out, n / 10);
        push_digit(out, n % 10);
        proof {
            assert((old(out)@ + dec_digits((n / 10) as nat)).push(
                digit_char((n % 10) as int),
            ) =~= old(out)@ + dec_digits(n as nat));
        }
    }
}

/// Render a 32-bit address as dotted-quad text.
pub fn ipv4_to_string(a: u32) -> (r: String)
    ensures
        r@ == render_ipv4(a),
{
    let mut out = String::new();
    push_decimal(&mut out, a / 0x1000000);
    push_dot(&mut out);
    push_decimal(&mut out, (a / 0x10000) % 0x100);
    push_dot(&mut out);
    push_decimal(&mut out, (a / 0x100) % 0x100);
    push_dot(&mut out);
    push_decimal(&mut out, a % 0x100);
    proof {
        assert(out@ =~= render_ipv4(a));
    }
    out
}

fn push_dot(out: &mut String)
    ensures
        final(out)@ == old(out)@ + seq!['.'],
{
    proof {
        reveal_strlit(".");
    }
    out.append(".");
    proof {
        assert(old(out)@ + "."@ =~= old(out)@ + seq!['.']);
    }
}

proof fn lemma_split_nosep(s: Seq<char>, sep: char)
    requires
        sep != '"',
        forall|i: int| 0 <= i < s.len() ==> s[i] != sep && s[i] != '"',
    ensures
        split_from(s, sep, false) == seq![s],
    decreases s.len(),
{
    if s.len() == 0 {
        assert(s =~= Seq::<char>::empty());
        assert(split_from(s, sep, false) =~~= seq![s]);
    } else {
        lemma_split_nosep(s.skip(1), sep);
        assert(seq![s[0]] + s.skip(1) =~= s);
        assert(split_from(s, sep, false) =~~= seq![s]);
    }
}

proof fn lemma_split_prefix(s: Seq<char>, t: Seq<char>, sep: char)
    requires
        sep != '"',
        forall|i: int| 0 <= i < s.len() ==> s[i] != sep && s[i] != '"',
    ensures
        split_from(s + seq![sep] + t, sep, false) == seq![s] + split_from(t, sep, false),
    decreases s.len(),
{
    lemma_split_from_len(t, sep, false);
    let u = s + seq![sep] + t;
    if s.len() == 0 {
        assert(u[0] == sep);
        assert(u.skip(1) =~= t);
        assert(s =~= Seq::<char>::empty());
        assert(split_from(u, sep, false) =~~= seq![s] + split_from(t, sep, false));
    } else {
        assert(u[0] == s[0]);
        assert(u.skip(1) =~= s.skip(1) + seq![sep] + t);
        lemma_split_prefix(s.skip(1), t, sep);
        let rest = split_from(s.skip(1) + seq![sep] + t, sep, false);
        assert(rest[0] == s.skip(1));
        assert(rest.skip(1) =~= split_from(t, sep, false));
        assert(seq![s[0]] + s.skip(1) =~= s);
        assert(split_from(u, sep, false) =~~= seq![s] + split_from(t, sep, false));
    }
}

proof fn lemma_dec_digits_plain(n: nat)
    ensures
        forall|i: int|
            0 <= i < dec_digits(n).len() ==> dec_digits(n)[i] != '.' && dec_digits(n)[i] != '"',
{
    lemma_dec_digits_value(n);
    assert forall|i: int|
        0 <= i < dec_digits(n).len() implies dec_digits(n)[i] != '.' && dec_digits(n)[i]
        != '"' by {
        assert(is_digit(dec_digits(n)[i]));
        assert('.' as int == 46);
        assert('"' as int == 34);
    }
}

proof fn lemma_dec_digits_len(n: nat)
    requires
        n <= 255,
    ensures
        1 <= dec_digits(n).len() <= 3,
{
    reveal_with_fuel(dec_digits, 4);
}

/// Rendering an address as dotted-quad text and parsing it back returns
/// the same address.
pub proof fn lemma_ipv4_round_trip(a: u32)
    ensures
        parse_ipv4(render_ipv4(a)) == Some(a),
{
    let n = a as nat;
    let o3 = n / 0x1000000;
    let o2 = (n / 0x10000) % 0x100;
    let o1 = (n / 0x100) % 0x100;
    let o0 = n % 0x100;
    assert(a / 0x1000000 <= 255) by (bit_vector);
    assert((a / 0x1000000) * 0x1000000 + ((a / 0x10000) % 0x100) * 0x10000 + ((a / 0x100) % 0x100)
        * 0x100 + (a % 0x100) == a) by (bit_vector);
    let d3 = dec_digits(o3);
    let d2 = dec_digits(o2);
    let d1 = dec_digits(o1);
    let d0 = dec_digits(o0);
    lemma_dec_digits_value(o3);
    lemma_dec_digits_value(o2);
    lemma_dec_digits_value(o1);
    lemma_dec_digits_value(o0);
    lemma_dec_digits_plain(o3);
    lemma_dec_digits_plain(o2);
    lemma_dec_digits_plain(o1);
    lemma_dec_digits_plain(o0);
    lemma_dec_digits_len(o3);
    lemma_dec_digits_len(o2);
    lemma_dec_digits_len(o1);
    lemma_dec_digits_len(o0);
    let r2 = d1 + seq!['.'] + d0;
    let r1 = d2 + seq!['.'] + r2;
    assert(render_ipv4(a) =~= d3 + seq!['.'] + r1);
    lemma_split_prefix(d3, r1, '.');
    lemma_split_prefix(d2, r2, '.');
    lemma_split_prefix(d1, d0, '.');
    lemma_split_nosep(d0, '.');
    let ps = split_sep(render_ipv4(a), '.');
    assert(ps =~~= seq![d3, d2, d1, d0]);
    assert(parse_octet(d3) == Some((o3 as u32)));
    assert(parse_octet(d2) == Some((o2 as u32)));
    assert(parse_octet(d1) == Some((o1 as u32)));
    assert(parse_octet(d0) == Some((o0 as u32)));
    assert(ipv4_from_octets(o3 as int, o2 as int, o1 as int, o0 as int) == a);
}

/// Parse a dotted-quad IPv4 address into its 32-bit value.
pub fn parse_ipv4_str(s: &str) -> (r: Option<u32>)
    ensures
        r == parse_ipv4(s@),
{
    let parts = split_str(s, '.');
    if parts.len() != 4 {
        return None;
    }
    let a = parse_octet_str(parts[0].as_str());
    let b = parse_octet_str(parts[1].as_str());
    let c = parse_octet_str(parts[2].as_str());
    let d = parse_octet_str(parts[3].as_str());
    match (a, b, c, d) {
        (Some(a), Some(b), Some(c), Some(d)) => {
            let r = a * 0x1000000 + b * 0x10000 + c * 0x100 + d;
            Some(r)
        },
        _ => None,
    }
}

} // verus!
