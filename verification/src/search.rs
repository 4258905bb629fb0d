use vstd::prelude::*;
use vstd::utf8::encode_utf8;

use crate::dom::{find_with_class, first_with_class, fragment_selection, select_in_fragment, subtree_text, text_of, DomEvent};
use crate::SourceResult;
use crate::text::{
    chars_of, decimal, digit_char, find, find_char, find_chars, lemma_find_bounds, lemma_find_first,
    lemma_find_none, occurs_at, push_decimal, slice_chars, string_of, trim, trimmed,
};

verus! {

/// Bytes that `urlencoding` copies as they are: ASCII letters, digits and `-_.~`.
pub open spec fn is_unreserved(b: u8) -> bool {
    ||| (65 <= b && b <= 90)
    ||| (97 <= b && b <= 122)
    ||| (48 <= b && b <= 57)
    ||| b == 45
    ||| b == 95
    ||| b == 46
    ||| b == 126
}

/// The upper-case hexadecimal digit for `d < 16`.
pub open spec fn hex_upper(d: nat) -> char {
    if d < 10 {
        (48 + d) as char
    } else {
        (55 + d) as char
    }
}

/// How one byte is written: itself when unreserved, else `%` and two upper-case hex digits.
pub open spec fn percent_encoded(b: u8) -> Seq<char> {
    if is_unreserved(b) {
        seq![b as char]
    } else {
        seq!['%', hex_upper((b / 16) as nat), hex_upper((b % 16) as nat)]
    }
}

/// The percent-encoding of a byte string.
pub open spec fn percent_encoded_bytes(bs: Seq<u8>) -> Seq<char>
    decreases bs.len(),
{
    if bs.len() == 0 {
        seq![]
    } else {
        percent_encoded_bytes(bs.drop_last()) + percent_encoded(bs.last())
    }
}

/// The percent-encoding of the UTF-8 bytes of `s`.
pub open spec fn url_encoded(s: Seq<char>) -> Seq<char> {
    percent_encoded_bytes(encode_utf8(s))
}

fn hex_digit_upper(d: u8) -> (c: char)
    requires
        d < 16,
    ensures
        c == hex_upper(d as nat),
{
    if d < 10 {
        (48u8 + d) as char
    } else {
        (55u8 + d) as char
    }
}

/// Percent-encodes `s` for a query string: every UTF-8 byte of `s` that is not an ASCII
/// letter, digit or one of `-_.~` becomes `%` followed by two upper-case hex digits.
pub fn urlencoding(s: &str) -> (encoded: String)
    ensures
        encoded@ == url_encoded(s@),
{
    let bytes = s.as_bytes();
    let mut encoded = String::new();
    let mut i: usize = 0;
    while i < bytes.len()
        invariant
            i <= bytes@.len(),
            bytes@ == encode_utf8(s@),
            encoded@ == percent_encoded_bytes(bytes@.take(i as int)),
        decreases bytes@.len() - i,
    {
        let byte = bytes[i];
        let ghost before = encoded@;
        if (65 <= byte && byte <= 90) || (97 <= byte && byte <= 122) || (48 <= byte && byte <= 57)
            || byte == 45 || byte == 95 || byte == 46 || byte == 126 {
            encoded.push(byte as char);
        } else if byte == 32 {
            encoded.push('%');
            encoded.push('2');
            encoded.push('0');
        } else {
            encoded.push('%');
            encoded.push(hex_digit_upper(byte / 16));
            encoded.push(hex_digit_upper(byte % 16));
        }
        assert(encoded@ == before + percent_encoded(byte));
        assert(bytes@.take(i + 1).drop_last() == bytes@.take(i as int));
        i = i + 1;
    }
    assert(bytes@.take(bytes@.len() as int) == bytes@);
    encoded
}

/// The value of a hexadecimal digit in either case, as `from_str_radix` with radix 16 reads it.
pub open spec fn hex_value(c: char) -> Option<nat> {
    if '0' <= c && c <= '9' {
        Some((c as nat - 48) as nat)
    } else if 'a' <= c && c <= 'f' {
        Some((c as nat - 87) as nat)
    } else if 'A' <= c && c <= 'F' {
        Some((c as nat - 55) as nat)
    } else {
        None
    }
}

/// The value of the hex digits `ds` (at most two of them), if each is a hex digit.
pub open spec fn hex_digits_value(ds: Seq<char>) -> Option<nat>
    decreases ds.len(),
{
    if ds.len() == 0 {
        Some(0)
    } else {
        match (hex_digits_value(ds.drop_last()), hex_value(ds.last())) {
            (Some(high), Some(low)) => Some(high * 16 + low),
            _ => None,
        }
    }
}

/// What `u8::from_str_radix(h, 16)` gives for a string `h` of at most two characters:
/// an optional leading `+`, then at least one hex digit.
pub open spec fn parse_hex_byte(h: Seq<char>) -> Option<u8> {
    if h.len() == 0 || h =~= seq!['+'] || h =~= seq!['-'] {
        None
    } else {
        let digits = if h[0] == '+' { h.drop_first() } else { h };
        match hex_digits_value(digits) {
            Some(v) => Some(v as u8),
            None => None,
        }
    }
}

/// Percent-decoding as `url_decode` does it: `%` takes up to two following characters; when
/// they parse as a hex byte, that byte stands for the character with the same code (U+0000 to
/// U+00FF), and otherwise the `%` and those characters are dropped.
pub open spec fn url_decoded(s: Seq<char>) -> Seq<char>
    decreases s.len(),
{
    if s.len() == 0 {
        seq![]
    } else if s[0] == '%' {
        let n: int = if s.len() >= 3 { 2 } else { s.len() - 1 };
        let rest = s.skip(1 + n);
        match parse_hex_byte(s.subrange(1, 1 + n)) {
            Some(b) => seq![b as char] + url_decoded(rest),
            None => url_decoded(rest),
        }
    } else {
        seq![s[0]] + url_decoded(s.drop_first())
    }
}

fn hex_digit_value(c: char) -> (v: Option<u8>)
    ensures
        match v {
            Some(d) => hex_value(c) == Some(d as nat) && d < 16,
            None => hex_value(c) is None,
        },
{
    if '0' <= c && c <= '9' {
        Some((c as u32 - 48) as u8)
    } else if 'a' <= c && c <= 'f' {
        Some((c as u32 - 87) as u8)
    } else if 'A' <= c && c <= 'F' {
        Some((c as u32 - 55) as u8)
    } else {
        None
    }
}

/// `u8::from_str_radix` with radix 16, on the characters `cs[from..to]`, at most two of them.
fn parse_hex_byte_at(cs: &Vec<char>, from: usize, to: usize) -> (r: Option<u8>)
    requires
        from <= to <= cs@.len(),
        to - from <= 2,
    ensures
        r == parse_hex_byte(cs@.subrange(from as int, to as int)),
{
    let ghost h = cs@.subrange(from as int, to as int);
    if from == to {
        return None;
    }
    if to - from == 1 && (cs[from] == '+' || cs[from] == '-') {
        assert(h =~= seq![cs@[from as int]]);
        return None;
    }
    assert(!(h =~= seq!['+']) && !(h =~= seq!['-'])) by {
        if h =~= seq!['+'] || h =~= seq!['-'] {
            assert(h[0] == cs@[from as int]);
        }
    }
    let start = if cs[from] == '+' { from + 1 } else { from };
    let ghost digits = if h[0] == '+' { h.drop_first() } else { h };
    assert(digits == cs@.subrange(start as int, to as int));
    let mut value: u8 = 0;
    let mut i = start;
    while i < to
        invariant
            from <= start <= i <= to <= cs@.len(),
            to - start <= 2,
            digits == cs@.subrange(start as int, to as int),
            parse_hex_byte(h) == (match hex_digits_value(digits) {
                Some(v) => Some(v as u8),
                None => None,
            }),
            h == cs@.subrange(from as int, to as int),
            hex_digits_value(cs@.subrange(start as int, i as int)) == Some(value as nat),
            value < 16 || i == to || i - start == 0,
            i - start == 0 ==> value == 0,
        decreases to - i,
    {
        let ghost prefix = cs@.subrange(start as int, i + 1);
        assert(prefix.drop_last() == cs@.subrange(start as int, i as int));
        match hex_digit_value(cs[i]) {
            Some(d) => {
                value = value * 16 + d;
            },
            None => {
                proof {
                    assert(digits[(i - start) as int] == cs@[i as int]);
                    lemma_hex_digits_invalid(digits, (i - start) as int);
                }
                return None;
            },
        }
        i = i + 1;
    }
    Some(value)
}

proof fn lemma_hex_digits_invalid(ds: Seq<char>, k: int)
    requires
        0 <= k < ds.len(),
        hex_value(ds[k]) is None,
    ensures
        hex_digits_value(ds) is None,
    decreases ds.len(),
{
    if k < ds.len() - 1 {
        assert(ds.drop_last()[k] == ds[k]);
        lemma_hex_digits_invalid(ds.drop_last(), k);
    }
}

/// Decodes `%XX` sequences of `s`; see `url_decoded`.
pub fn url_decode(s: &str) -> (decoded: String)
    ensures
        decoded@ == url_decoded(s@),
{
    let cs = chars_of(s);
    let mut decoded = String::new();
    let mut i: usize = 0;
    assert(cs@.skip(0) == cs@);
    while i < cs.len()
        invariant
            i <= cs@.len(),
            cs@ == s@,
            decoded@ + url_decoded(cs@.skip(i as int)) == url_decoded(s@),
        decreases cs@.len() - i,
    {
        let ghost tail = cs@.skip(i as int);
        if cs[i] == '%' {
            let end = if cs.len() - i >= 3 { i + 3 } else { cs.len() };
            assert(tail.subrange(1, (end - i) as int) == cs@.subrange(i + 1, end as int));
            assert(tail.skip((end - i) as int) == cs@.skip(end as int));
            match parse_hex_byte_at(&cs, i + 1, end) {
                Some(byte) => {
                    decoded.push(byte as char);
                },
                None => {},
            }
            i = end;
        } else {
            assert(tail.drop_first() == cs@.skip(i + 1));
            decoded.push(cs[i]);
            i = i + 1;
        }
    }
    assert(cs@.skip(cs@.len() as int) =~= Seq::<char>::empty());
    decoded
}

/// The link target that `clean_url` extracts from a result link: when `href` holds `uddg=`,
/// the percent-decoded text after its first occurrence up to the next `&` (or the end);
/// otherwise `href` itself.
pub open spec fn cleaned_url(href: Seq<char>) -> Seq<char> {
    match find(href, "uddg="@) {
        Some(start) => {
            let remaining = href.skip(start + 5);
            match find(remaining, seq!['&']) {
                Some(end) => url_decoded(remaining.take(end)),
                None => url_decoded(remaining),
            }
        },
        None => href,
    }
}

/// Unwraps a redirect link of the search page; see `cleaned_url`.
pub fn clean_url(href: &str) -> (url: String)
    ensures
        url@ == cleaned_url(href@),
{
    let cs = chars_of(href);
    let marker = chars_of("uddg=");
    proof {
        reveal_strlit("uddg=");
    }
    assert(marker@.len() == 5);
    let n = cs.len();
    match find_chars(&cs, &marker) {
        Some(start) => {
            proof {
                lemma_find_bounds(cs@, marker@);
            }
            let rest = slice_chars(&cs, start + 5, cs.len());
            assert(rest@ == cs@.skip(start + 5));
            let decoded_from = match find_char(&rest, '&') {
                Some(end) => {
                    proof {
                        lemma_find_bounds(rest@, seq!['&']);
                    }
                    let part = slice_chars(&rest, 0, end);
                    assert(part@ == rest@.take(end as int));
                    part
                },
                None => rest,
            };
            let as_text = string_of(&decoded_from);
            url_decode(as_text.as_str())
        },
        None => href.to_owned(),
    }
}

/// Each byte read as the character with the same code (U+0000 to U+00FF).
pub open spec fn bytes_as_chars(bs: Seq<u8>) -> Seq<char> {
    bs.map_values(|b: u8| b as char)
}

proof fn lemma_percent_encoded_concat(a: Seq<u8>, b: Seq<u8>)
    ensures
        percent_encoded_bytes(a + b) == percent_encoded_bytes(a) + percent_encoded_bytes(b),
    decreases b.len(),
{
    if b.len() == 0 {
        assert(a + b == a);
    } else {
        lemma_percent_encoded_concat(a, b.drop_last());
        assert((a + b).drop_last() == a + b.drop_last());
        assert((a + b).last() == b.last());
    }
}

proof fn lemma_hex_upper_value(d: nat)
    requires
        d < 16,
    ensures
        hex_value(hex_upper(d)) == Some(d),
        hex_upper(d) != '+',
{
}

proof fn lemma_decode_one(b: u8, rest: Seq<char>)
    ensures
        url_decoded(percent_encoded(b) + rest) == seq![b as char] + url_decoded(rest),
{
    let s = percent_encoded(b) + rest;
    if is_unreserved(b) {
        assert(s[0] == b as char);
        assert(s.drop_first() == rest);
    } else {
        let hi = hex_upper((b / 16) as nat);
        let lo = hex_upper((b % 16) as nat);
        lemma_hex_upper_value((b / 16) as nat);
        lemma_hex_upper_value((b % 16) as nat);
        let h = s.subrange(1, 3);
        assert(h == seq![hi, lo]);
        assert(s.skip(3) == rest);
        assert(h.drop_first() == seq![lo]);
        assert(!(h =~= seq!['+']) && !(h =~= seq!['-']));
        assert(h.drop_last() == seq![hi]);
        assert(seq![hi].drop_last() =~= Seq::<char>::empty());
        assert(hex_digits_value(seq![hi].drop_last()) == Some(0nat));
        assert(seq![hi].last() == hi);
        assert(hex_digits_value(seq![hi]) == Some((b / 16) as nat));
        assert(hex_digits_value(h) == Some(((b / 16) * 16 + b % 16) as nat));
        assert((b / 16) * 16 + b % 16 == b);
        assert(parse_hex_byte(h) == Some(b));
    }
}

proof fn lemma_decode_encoded_bytes(bs: Seq<u8>)
    ensures
        url_decoded(percent_encoded_bytes(bs)) == bytes_as_chars(bs),
    decreases bs.len(),
{
    if bs.len() == 0 {
        assert(bytes_as_chars(bs) =~= Seq::<char>::empty());
    } else {
        let first = seq![bs[0]];
        let tail = bs.drop_first();
        assert(bs == first + tail);
        lemma_percent_encoded_concat(first, tail);
        assert(first.drop_last() =~= Seq::<u8>::empty());
        assert(percent_encoded_bytes(first.drop_last()) =~= Seq::<char>::empty());
        assert(Seq::<char>::empty() + percent_encoded(bs[0]) =~= percent_encoded(bs[0]));
        assert(percent_encoded_bytes(first) == percent_encoded(bs[0]));
        lemma_decode_one(bs[0], percent_encoded_bytes(tail));
        lemma_decode_encoded_bytes(tail);
        assert(bytes_as_chars(bs) =~= seq![bs[0] as char] + bytes_as_chars(tail));
    }
}

/// Decoding what `urlencoding` writes gives back the UTF-8 bytes of the input, each read as
/// the character with the same code.
pub proof fn lemma_url_decode_undoes_urlencoding(s: Seq<char>)
    ensures
        url_decoded(url_encoded(s)) == bytes_as_chars(encode_utf8(s)),
{
    lemma_decode_encoded_bytes(encode_utf8(s));
}

/// For ASCII text, `url_decode` gives back exactly what `urlencoding` was given.
pub proof fn lemma_url_roundtrip_ascii(s: Seq<char>)
    requires
        vstd::utf8::is_ascii_chars(s),
    ensures
        url_decoded(url_encoded(s)) == s,
{
    lemma_decode_encoded_bytes(encode_utf8(s));
    vstd::utf8::is_ascii_chars_encode_utf8(s);
    let bs = encode_utf8(s);
    assert forall|i: int| 0 <= i < s.len() implies bytes_as_chars(bs)[i] == s[i] by {
        let c = s[i];
        let b = bs[i];
        assert(b == c as u8);
        assert('\0' <= c <= '\u{7f}');
        assert((c as u8) as char == c);
    }
    assert(bytes_as_chars(bs) =~= s);
}

/// `n` written with at least two digits, as the format `{:02}` writes it.
pub open spec fn two_digits(n: nat) -> Seq<char> {
    if n < 10 {
        seq!['0', digit_char(n)]
    } else {
        decimal(n)
    }
}

/// The stamp `THH:MM:SSZ` of the time of day, in UTC, `secs` seconds after the Unix epoch.
pub open spec fn time_of_day_stamp(secs: nat) -> Seq<char> {
    let time = secs % 86400;
    seq!['T'] + two_digits(time / 3600) + seq![':'] + two_digits((time % 3600) / 60) + seq![':']
        + two_digits(time % 60) + seq!['Z']
}

/// Seconds since the Unix epoch by the system clock (`SystemTime::now`), or 0 when the clock
/// stands before the epoch. Nothing is promised of the value: it is the time.
#[verifier::external_body]
fn unix_time_secs() -> u64 {
    std::time::SystemTime::now().duration_since(std::time::UNIX_EPOCH).unwrap_or_default().as_secs()
}

fn push_two_digits(out: &mut String, n: u64)
    requires
        n < 100,
    ensures
        final(out)@ == old(out)@ + two_digits(n as nat),
{
    if n < 10 {
        out.push('0');
        out.push((48u8 + n as u8) as char);
        assert(decimal(n as nat) == seq![digit_char(n as nat)]);
    } else {
        push_decimal(out, n as u128);
    }
}

/// The stamp `THH:MM:SSZ` for `secs` seconds after the Unix epoch.
pub fn time_stamp(secs: u64) -> (stamp: String)
    ensures
        stamp@ == time_of_day_stamp(secs as nat),
{
    let time = secs % 86400;
    let hours = time / 3600;
    let minutes = (time % 3600) / 60;
    let seconds = time % 60;
    let mut stamp = String::new();
    stamp.push('T');
    push_two_digits(&mut stamp, hours);
    stamp.push(':');
    push_two_digits(&mut stamp, minutes);
    stamp.push(':');
    push_two_digits(&mut stamp, seconds);
    stamp.push('Z');
    stamp
}

/// The current time of day as `THH:MM:SSZ`.
pub fn chrono_now() -> (stamp: String)
    ensures
        exists|secs: u64| stamp@ == time_of_day_stamp(secs as nat),
{
    let secs = unix_time_secs();
    let stamp = time_stamp(secs);
    assert(stamp@ == time_of_day_stamp(secs as nat));
    stamp
}

/// The text of the element entered at `k`, or nothing when there is none.
pub open spec fn text_at(ev: Seq<DomEvent>, k: Option<int>) -> Seq<char> {
    match k {
        Some(i) => subtree_text(ev, i),
        None => Seq::empty(),
    }
}

/// The cleaned `href` of the element entered at `k`, or nothing when there is no such element
/// or it has no `href`.
pub open spec fn link_at(ev: Seq<DomEvent>, k: Option<int>) -> Seq<char> {
    match k {
        Some(i) => match ev[i] {
            DomEvent::Open(d) => match d.href {
                Some(h) => cleaned_url(h@),
                None => Seq::empty(),
            },
            _ => Seq::empty(),
        },
        None => Seq::empty(),
    }
}

/// What one result block of the search page yields, as `(url, title, snippet)`: the url of its
/// first `result__a` link, cleaned, with the trimmed text of that link and of its first
/// `result__snippet`; nothing when that url is empty.
pub open spec fn result_hit(block: Seq<DomEvent>) -> Option<(Seq<char>, Seq<char>, Seq<char>)> {
    let link = first_with_class(block, "result__a"@);
    let url = link_at(block, link);
    if url.len() > 0 {
        Some((url, trimmed(text_at(block, link)), trimmed(text_at(block, first_with_class(block, "result__snippet"@)))))
    } else {
        None
    }
}

/// The hits of the result blocks, in order.
pub open spec fn result_hits(blocks: Seq<Seq<DomEvent>>) -> Seq<(Seq<char>, Seq<char>, Seq<char>)>
    decreases blocks.len(),
{
    if blocks.len() == 0 {
        Seq::empty()
    } else {
        let before = result_hits(blocks.drop_last());
        match result_hit(blocks.last()) {
            Some(hit) => before.push(hit),
            None => before,
        }
    }
}

/// The hits on a search page: those of the `result__body` blocks of the page parsed as a
/// fragment.
pub open spec fn page_hits(html: Seq<char>) -> Seq<(Seq<char>, Seq<char>, Seq<char>)> {
    match fragment_selection(html, ".result__body"@) {
        Some(blocks) => result_hits(blocks),
        None => Seq::empty(),
    }
}

/// Every hit read off a results page has a non-empty url.
pub proof fn lemma_hits_have_urls(blocks: Seq<Seq<DomEvent>>)
    ensures
        forall|i: int| 0 <= i < result_hits(blocks).len() ==> (#[trigger] result_hits(blocks)[i]).0.len() > 0,
    decreases blocks.len(),
{
    if blocks.len() > 0 {
        lemma_hits_have_urls(blocks.drop_last());
        let before = result_hits(blocks.drop_last());
        if let Some(hit) = result_hit(blocks.last()) {
            assert(result_hits(blocks) == before.push(hit));
            assert forall|i: int| 0 <= i < before.push(hit).len() implies (#[trigger] before.push(hit)[i]).0.len() > 0 by {
                if i < before.len() {
                    assert(before.push(hit)[i] == before[i]);
                }
            }
        }
    }
}

/// The relevance, in percent, of the hit at `rank` (counted from 0): `1.0 - rank * 0.05`.
pub open spec fn rank_relevance(rank: int) -> int {
    100 - 5 * rank
}

proof fn lemma_hits_prefix(blocks: Seq<Seq<DomEvent>>, j: int)
    requires
        0 <= j <= blocks.len(),
    ensures
        result_hits(blocks.take(j)).len() <= result_hits(blocks).len(),
        result_hits(blocks.take(j)) == result_hits(blocks).take(result_hits(blocks.take(j)).len() as int),
    decreases blocks.len() - j,
{
    if j == blocks.len() {
        assert(blocks.take(j) == blocks);
    } else {
        lemma_hits_prefix(blocks, j + 1);
        assert(blocks.take(j + 1).drop_last() == blocks.take(j));
        let small = result_hits(blocks.take(j));
        let big = result_hits(blocks.take(j + 1));
        let all = result_hits(blocks);
        assert(big.take(small.len() as int) == small);
        assert(all.take(small.len() as int) == big.take(big.len() as int).take(small.len() as int));
    }
}

/// `(url, title, snippet)` of one result block; see `result_hit`.
fn hit_of_block(block: &Vec<DomEvent>) -> (hit: Option<(String, String, String)>)
    ensures
        match hit {
            Some(h) => result_hit(block@) == Some((h.0@, h.1@, h.2@)),
            None => result_hit(block@) is None,
        },
{
    let link = find_with_class(block, "result__a");
    let ghost link_spec = first_with_class(block@, "result__a"@);
    let (title, href) = match link {
        Some(k) => {
            let title = text_of(block, k);
            let href = match &block[k] {
                DomEvent::Open(d) => match &d.href {
                    Some(h) => clean_url(h.as_str()),
                    None => String::new(),
                },
                _ => String::new(),
            };
            (title, href)
        },
        None => (String::new(), String::new()),
    };
    assert(title@ == text_at(block@, link_spec));
    assert(href@ == link_at(block@, link_spec));
    let snippet = match find_with_class(block, "result__snippet") {
        Some(k) => text_of(block, k),
        None => String::new(),
    };
    assert(snippet@ == text_at(block@, first_with_class(block@, "result__snippet"@)));
    let href_chars = chars_of(href.as_str());
    if href_chars.len() > 0 {
        Some((href, trim(title.as_str()), trim(snippet.as_str())))
    } else {
        None
    }
}

/// The view of a list of walks.
pub open spec fn walks_view(blocks: Seq<Vec<DomEvent>>) -> Seq<Seq<DomEvent>> {
    blocks.map_values(|w: Vec<DomEvent>| w@)
}

/// The hits of the result blocks `blocks`, at most `limit` of them, each stamped with the time
/// of day it was read. The hit at rank `i` (from 0) has relevance `1.0 - i * 0.05`.
pub fn hits_of_blocks(blocks: &Vec<Vec<DomEvent>>, limit: usize) -> (results: Vec<SourceResult>)
    ensures
        results@.len() == if result_hits(walks_view(blocks@)).len() < limit {
            result_hits(walks_view(blocks@)).len()
        } else {
            limit as nat
        },
        forall|i: int| 0 <= i < results@.len() ==> {
            &&& (#[trigger] results@[i]).url@ == result_hits(walks_view(blocks@))[i].0
            &&& results@[i].title@ == result_hits(walks_view(blocks@))[i].1
            &&& results@[i].content@ == result_hits(walks_view(blocks@))[i].2
            &&& results@[i].relevance_percent == rank_relevance(i)
            &&& exists|secs: u64| results@[i].extracted_at@ == time_of_day_stamp(secs as nat)
        },
{
    let mut results: Vec<SourceResult> = Vec::new();
    let ghost bs = walks_view(blocks@);
    let mut j: usize = 0;
    assert(bs.take(0) =~= Seq::<Seq<DomEvent>>::empty());
    while j < blocks.len()
        invariant
            j <= blocks@.len(),
            bs == walks_view(blocks@),
            results@.len() == result_hits(bs.take(j as int)).len(),
            results@.len() <= limit,
            forall|i: int| 0 <= i < results@.len() ==> {
                &&& (#[trigger] results@[i]).url@ == result_hits(bs.take(j as int))[i].0
                &&& results@[i].title@ == result_hits(bs.take(j as int))[i].1
                &&& results@[i].content@ == result_hits(bs.take(j as int))[i].2
                &&& results@[i].relevance_percent == rank_relevance(i)
                &&& exists|secs: u64| results@[i].extracted_at@ == time_of_day_stamp(secs as nat)
            },
        ensures
            j <= blocks@.len(),
            j == blocks@.len() || results@.len() >= limit,
            results@.len() == result_hits(bs.take(j as int)).len(),
            results@.len() <= limit,
            forall|i: int| 0 <= i < results@.len() ==> {
                &&& (#[trigger] results@[i]).url@ == result_hits(bs.take(j as int))[i].0
                &&& results@[i].title@ == result_hits(bs.take(j as int))[i].1
                &&& results@[i].content@ == result_hits(bs.take(j as int))[i].2
                &&& results@[i].relevance_percent == rank_relevance(i)
                &&& exists|secs: u64| results@[i].extracted_at@ == time_of_day_stamp(secs as nat)
            },
        decreases blocks@.len() - j,
    {
        if results.len() >= limit {
            break;
        }
        assert(bs.take(j + 1).drop_last() == bs.take(j as int));
        assert(bs.take(j + 1).last() == blocks@[j as int]@);
        match hit_of_block(&blocks[j]) {
            Some((url, title, content)) => {
                let relevance = 100 - 5 * (results.len() as i128);
                let source = SourceResult { url, title, relevance_percent: relevance, content, extracted_at: chrono_now() };
                results.push(source);
            },
            None => {},
        }
        j = j + 1;
    }
    proof {
        lemma_hits_prefix(bs, j as int);
        if j == blocks.len() {
            assert(bs.take(j as int) == bs);
        }
    }
    results
}

/// The hits of a search results page, at most `limit` of them, each stamped with the time of
/// day it was read. The hit at rank `i` (from 0) has relevance `1.0 - i * 0.05`.
pub fn parse_search_results(html: &str, limit: usize) -> (results: Vec<SourceResult>)
    ensures
        results@.len() == if page_hits(html@).len() < limit { page_hits(html@).len() } else { limit as nat },
        forall|i: int| 0 <= i < results@.len() ==> {
            &&& (#[trigger] results@[i]).url@ == page_hits(html@)[i].0
            &&& results@[i].title@ == page_hits(html@)[i].1
            &&& results@[i].content@ == page_hits(html@)[i].2
            &&& results@[i].relevance_percent == rank_relevance(i)
            &&& exists|secs: u64| results@[i].extracted_at@ == time_of_day_stamp(secs as nat)
        },
{
    let blocks = match select_in_fragment(html, ".result__body") {
        Some(blocks) => blocks,
        None => Vec::new(),
    };
    assert(page_hits(html@) == result_hits(walks_view(blocks@)));
    hits_of_blocks(&blocks, limit)
}

/// The address of the search page for `query`.
pub open spec fn search_page_url(query: Seq<char>) -> Seq<char> {
    "https://html.duckduckgo.com/html/?q="@ + url_encoded(query)
}

/// The address `SearchEngine::search` fetches for `query`; see `search_page_url`.
pub fn search_url(query: &str) -> (url: String)
    ensures
        url@ == search_page_url(query@),
{
    let mut url = String::new();
    url.push_str("https://html.duckduckgo.com/html/?q=");
    let encoded = urlencoding(query);
    url.push_str(encoded.as_str());
    url
}

/// A character that may stand in a query string as it is: an ASCII letter or digit, one of
/// `-_.~`, or the `%` that starts an escape.
pub open spec fn is_query_safe(c: char) -> bool {
    c == '%' || (c as u32 <= 0x7f && is_unreserved(c as u8))
}

proof fn lemma_percent_encoded_safe(bs: Seq<u8>)
    ensures
        forall|i: int| 0 <= i < percent_encoded_bytes(bs).len() ==> is_query_safe(#[trigger] percent_encoded_bytes(bs)[i]),
    decreases bs.len(),
{
    if bs.len() > 0 {
        lemma_percent_encoded_safe(bs.drop_last());
        let b = bs.last();
        let prev = percent_encoded_bytes(bs.drop_last());
        let piece = percent_encoded(b);
        if !is_unreserved(b) {
            assert(is_unreserved((hex_upper((b / 16) as nat)) as u8));
            assert(is_unreserved((hex_upper((b % 16) as nat)) as u8));
        }
        assert forall|i: int| 0 <= i < piece.len() implies is_query_safe(#[trigger] piece[i]) by {}
        assert forall|i: int| 0 <= i < (prev + piece).len() implies is_query_safe(#[trigger] (prev + piece)[i]) by {
            if i < prev.len() {
                assert((prev + piece)[i] == prev[i]);
            } else {
                assert((prev + piece)[i] == piece[i - prev.len()]);
            }
        }
    }
}

/// Every character `urlencoding` writes may stand in a query string as it is.
pub proof fn lemma_urlencoding_is_query_safe(s: Seq<char>)
    ensures
        forall|i: int| 0 <= i < url_encoded(s).len() ==> is_query_safe(#[trigger] url_encoded(s)[i]),
{
    lemma_percent_encoded_safe(encode_utf8(s));
}

/// `c` is an ASCII decimal digit.
pub open spec fn is_digit(c: char) -> bool {
    '0' <= c && c <= '9'
}

proof fn lemma_two_digits_shape(n: nat)
    requires
        n < 100,
    ensures
        two_digits(n).len() == 2,
        is_digit(two_digits(n)[0]) && is_digit(two_digits(n)[1]),
        (two_digits(n)[0] as nat - 48) * 10 + (two_digits(n)[1] as nat - 48) == n,
{
    if n >= 10 {
        assert(decimal(n / 10) == seq![digit_char(n / 10)]);
        assert(n / 10 * 10 + n % 10 == n);
    }
}

/// A time stamp is ten characters `THH:MM:SSZ`, with hours below 24 and minutes and seconds
/// below 60, and it reads back as the time of day of `secs`.
pub proof fn lemma_time_stamp_shape(secs: nat)
    ensures
        ({
            let s = time_of_day_stamp(secs);
            let field = |k: int| (s[k] as nat - 48) * 10 + (s[k + 1] as nat - 48);
            &&& s.len() == 10
            &&& s[0] == 'T' && s[3] == ':' && s[6] == ':' && s[9] == 'Z'
            &&& is_digit(s[1]) && is_digit(s[2]) && is_digit(s[4]) && is_digit(s[5])
            &&& is_digit(s[7]) && is_digit(s[8])
            &&& field(1) == (secs % 86400) / 3600 && field(1) < 24
            &&& field(4) == (secs % 3600) / 60 && field(4) < 60
            &&& field(7) == secs % 60 && field(7) < 60
        }),
{
    let time = secs % 86400;
    lemma_two_digits_shape(time / 3600);
    lemma_two_digits_shape((time % 3600) / 60);
    lemma_two_digits_shape(time % 60);
    assert(time % 3600 == secs % 3600) by (nonlinear_arith)
        requires time == secs % 86400;
    assert(time % 60 == secs % 60) by (nonlinear_arith)
        requires time == secs % 86400;
}

/// In a link `<prefix>uddg=<rest>`, where `prefix` does not hold `uddg=`, the first `uddg=`
/// is the one after `prefix`.
#[verifier::spinoff_prover]
proof fn lemma_marker_after_prefix(prefix: Seq<char>, rest: Seq<char>)
    requires
        find(prefix, "uddg="@) is None,
    ensures
        find(prefix + "uddg="@ + rest, "uddg="@) == Some(prefix.len() as int),
{
    reveal_strlit("uddg=");
    let marker = "uddg="@;
    assert(marker == seq!['u', 'd', 'd', 'g', '=']);
    let link = prefix + marker + rest;
    let p = prefix.len() as int;
    assert(link[p] == 'u');
    lemma_find_none(prefix, marker, 0);
    assert(occurs_at(link, marker, p)) by {
        assert(link.subrange(p, p + 5) =~= marker);
    }
    assert forall|i: int| 0 <= i < p implies !occurs_at(link, marker, i) by {
        if i + 5 <= p {
            if occurs_at(link, marker, i) {
                assert(link.subrange(i, i + 5) =~= prefix.subrange(i, i + 5));
                assert(occurs_at(prefix, marker, i));
            }
        } else {
            let d = p - i;
            assert(1 <= d <= 4);
            assert(marker[d] != 'u');
            if occurs_at(link, marker, i) {
                assert(link.subrange(i, i + 5)[d] == link[p]);
            }
        }
    }
    lemma_find_first(link, marker, 0, p);
}

/// In `encoded + suffix`, where `encoded` is what `urlencoding` wrote and `suffix` is empty or
/// starts with `&`, the first `&` is the one that starts `suffix`.
proof fn lemma_first_ampersand(target: Seq<char>, suffix: Seq<char>)
    requires
        suffix.len() == 0 || suffix[0] == '&',
    ensures
        suffix.len() == 0 ==> find(url_encoded(target) + suffix, seq!['&']) is None,
        suffix.len() > 0 ==> find(url_encoded(target) + suffix, seq!['&']) == Some(url_encoded(target).len() as int),
{
    let encoded = url_encoded(target);
    let remaining = encoded + suffix;
    let amp = seq!['&'];
    lemma_urlencoding_is_query_safe(target);
    assert forall|i: int| 0 <= i < encoded.len() implies !occurs_at(remaining, amp, i) by {
        assert(remaining.subrange(i, i + 1)[0] == encoded[i]);
        assert(is_query_safe(encoded[i]));
    }
    if suffix.len() == 0 {
        assert(remaining == encoded);
        lemma_find_none(remaining, amp, 0);
    } else {
        let e = encoded.len() as int;
        assert(remaining.subrange(e, e + 1) == amp);
        lemma_find_first(remaining, amp, 0, e);
    }
}

/// A link that wraps a target address in a redirect, `<prefix>uddg=<target encoded>` followed
/// by nothing or by `&` and more parameters, is cleaned back to the target, for an ASCII
/// target and a prefix that does not hold `uddg=` itself.
pub proof fn lemma_clean_url_unwraps_redirect(prefix: Seq<char>, target: Seq<char>, suffix: Seq<char>)
    requires
        find(prefix, "uddg="@) is None,
        vstd::utf8::is_ascii_chars(target),
        suffix.len() == 0 || suffix[0] == '&',
    ensures
        cleaned_url(prefix + "uddg="@ + url_encoded(target) + suffix) == target,
{
    reveal_strlit("uddg=");
    let encoded = url_encoded(target);
    let link = prefix + "uddg="@ + encoded + suffix;
    let p = prefix.len() as int;
    assert(link == prefix + "uddg="@ + (encoded + suffix));
    lemma_marker_after_prefix(prefix, encoded + suffix);
    assert(link.skip(p + 5) == encoded + suffix);
    lemma_first_ampersand(target, suffix);
    lemma_url_roundtrip_ascii(target);
    if suffix.len() > 0 {
        assert((encoded + suffix).take(encoded.len() as int) == encoded);
    } else {
        assert(encoded + suffix == encoded);
    }
}

/// A link in which `uddg=` occurs nowhere is kept exactly as it is.
pub proof fn lemma_clean_url_keeps_plain_links(href: Seq<char>)
    requires
        forall|i: int| !occurs_at(href, "uddg="@, i),
    ensures
        cleaned_url(href) == href,
{
    lemma_find_none(href, "uddg="@, 0);
}

/// Text without `%` decodes to itself.
pub proof fn lemma_url_decode_plain_text(s: Seq<char>)
    requires
        forall|i: int| 0 <= i < s.len() ==> s[i] != '%',
    ensures
        url_decoded(s) == s,
    decreases s.len(),
{
    if s.len() > 0 {
        assert forall|i: int| 0 <= i < s.drop_first().len() implies s.drop_first()[i] != '%' by {
            assert(s.drop_first()[i] == s[i + 1]);
        }
        lemma_url_decode_plain_text(s.drop_first());
        assert(seq![s[0]] + s.drop_first() == s);
    }
}

} // verus!
