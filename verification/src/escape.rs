//! HTML escaping for inline text (the five standard entities) and for link
//! destinations in URL attributes (entity escapes for `&` and `'`,
//! percent-encoding of the UTF-8 bytes of every other unsafe character).

use vstd::prelude::*;
use crate::text::{chars_to_string, str_to_chars};

verus! {

/// What one character of inline text becomes.
pub open spec fn html_escape_char(c: char) -> Seq<char> {
    if c == '&' {
        "&amp;"@
    } else if c == '<' {
        "&lt;"@
    } else if c == '>' {
        "&gt;"@
    } else if c == '"' {
        "&quot;"@
    } else if c == '\'' {
        "&#39;"@
    } else {
        seq![c]
    }
}

/// Inline text escaped entity by entity.
pub open spec fn spec_escape_html(s: Seq<char>) -> Seq<char>
    decreases s.len(),
{
    if s.len() == 0 {
        Seq::empty()
    } else {
        html_escape_char(s[0]) + spec_escape_html(s.subrange(1, s.len() as int))
    }
}

/// Escape the five standard HTML entities in `s`.
pub fn escape_html(s: &str) -> (r: String)
    ensures
        r@ == spec_escape_html(s@),
{
    let chars = str_to_chars(s);
    let n = chars.len();
    let mut out: Vec<char> = Vec::new();
    let mut i: usize = 0;
    proof {
        assert(chars@.subrange(0, n as int) =~= s@);
        assert(Seq::<char>::empty() + spec_escape_html(s@) =~= spec_escape_html(s@));
    }
    while i < n
        invariant
            chars@ == s@,
            n == chars@.len(),
            0 <= i <= n,
            spec_escape_html(s@) ==
                out@ + spec_escape_html(chars@.subrange(i as int, n as int)),
        decreases n - i,
    {
        let ghost suffix = chars@.subrange(i as int, n as int);
        let c = chars[i];
        assert(suffix[0] == c);
        let ghost out0 = out@;
        if c == '&' {
            let mut piece = str_to_chars("&amp;");
            out.append(&mut piece);
        } else if c == '<' {
            let mut piece = str_to_chars("&lt;");
            out.append(&mut piece);
        } else if c == '>' {
            let mut piece = str_to_chars("&gt;");
            out.append(&mut piece);
        } else if c == '"' {
            let mut piece = str_to_chars("&quot;");
            out.append(&mut piece);
        } else if c == '\'' {
            let mut piece = str_to_chars("&#39;");
            out.append(&mut piece);
        } else {
            out.push(c);
            proof {
                assert(out@ =~= out0 + seq![c]);
            }
        }
        proof {
            assert(out@ =~= out0 + html_escape_char(c));
            let rest = suffix.subrange(1, suffix.len() as int);
            assert(spec_escape_html(suffix) == html_escape_char(c) + spec_escape_html(rest));
            assert(rest =~= chars@.subrange(i + 1, n as int));
            assert(out0 + (html_escape_char(c) + spec_escape_html(rest))
                =~= out@ + spec_escape_html(rest));
        }
        i += 1;
    }
    proof {
        assert(chars@.subrange(n as int, n as int) =~= Seq::<char>::empty());
        assert(out@ + spec_escape_html(Seq::<char>::empty()) =~= out@);
    }
    chars_to_string(&out)
}

/// ASCII bytes that pass through a URL attribute unescaped.
pub open spec fn href_byte_safe(b: u8) -> bool {
    b == 33 || (35 <= b && b <= 37) || (40 <= b && b <= 59) || b == 61
        || (63 <= b && b <= 90) || b == 94 || b == 95 || (97 <= b && b <= 122) || b == 126
}

/// Uppercase hexadecimal digit for a value below sixteen.
pub open spec fn hex_digit(d: u8) -> char {
    if d == 0 { '0' } else if d == 1 { '1' } else if d == 2 { '2' }
    else if d == 3 { '3' } else if d == 4 { '4' } else if d == 5 { '5' }
    else if d == 6 { '6' } else if d == 7 { '7' } else if d == 8 { '8' }
    else if d == 9 { '9' } else if d == 10 { 'A' } else if d == 11 { 'B' }
    else if d == 12 { 'C' } else if d == 13 { 'D' } else if d == 14 { 'E' }
    else { 'F' }
}

/// Percent-escape of one byte: `%` and two uppercase hex digits.
pub open spec fn percent_byte(b: u8) -> Seq<char> {
    seq!['%', hex_digit(b / 16), hex_digit(b % 16)]
}

/// The UTF-8 encoding of one character.
pub open spec fn utf8_bytes(c: char) -> Seq<u8> {
    let u = c as u32;
    if u < 0x80 {
        seq![u as u8]
    } else if u < 0x800 {
        seq![(0xC0 + u / 0x40) as u8, (0x80 + u % 0x40) as u8]
    } else if u < 0x10000 {
        seq![
            (0xE0 + u / 0x1000) as u8,
            (0x80 + (u / 0x40) % 0x40) as u8,
            (0x80 + u % 0x40) as u8,
        ]
    } else {
        seq![
            (0xF0 + u / 0x40000) as u8,
            (0x80 + (u / 0x1000) % 0x40) as u8,
            (0x80 + (u / 0x40) % 0x40) as u8,
            (0x80 + u % 0x40) as u8,
        ]
    }
}

/// Percent-escapes of a run of bytes.
pub open spec fn percent_bytes(bs: Seq<u8>) -> Seq<char>
    decreases bs.len(),
{
    if bs.len() == 0 {
        Seq::empty()
    } else {
        percent_byte(bs[0]) + percent_bytes(bs.subrange(1, bs.len() as int))
    }
}

/// What one character of a link destination becomes.
pub open spec fn href_escape_char(c: char) -> Seq<char> {
    let u = c as u32;
    if u < 128 {
        if href_byte_safe(u as u8) {
            seq![c]
        } else if c == '&' {
            "&amp;"@
        } else if c == '\'' {
            "&#x27;"@
        } else {
            percent_byte(u as u8)
        }
    } else {
        percent_bytes(utf8_bytes(c))
    }
}

/// A link destination escaped character by character.
pub open spec fn spec_escape_href(s: Seq<char>) -> Seq<char>
    decreases s.len(),
{
    if s.len() == 0 {
        Seq::empty()
    } else {
        href_escape_char(s[0]) + spec_escape_href(s.subrange(1, s.len() as int))
    }
}

proof fn lemma_percent_singleton(x: u8)
    ensures
        percent_bytes(seq![x]) == percent_byte(x),
{
    assert(seq![x].subrange(1, 1) =~= Seq::<u8>::empty());
    assert(percent_bytes(Seq::<u8>::empty()) =~= Seq::<char>::empty());
    assert(percent_bytes(seq![x]) =~= percent_byte(x));
}

proof fn lemma_percent_concat(a: Seq<u8>, b: Seq<u8>)
    ensures
        percent_bytes(a + b) == percent_bytes(a) + percent_bytes(b),
    decreases a.len(),
{
    if a.len() == 0 {
        assert(a + b =~= b);
        assert(percent_bytes(a) =~= Seq::<char>::empty());
        assert(percent_bytes(a) + percent_bytes(b) =~= percent_bytes(b));
    } else {
        let a1 = a.subrange(1, a.len() as int);
        assert((a + b)[0] == a[0]);
        assert((a + b).subrange(1, (a + b).len() as int) =~= a1 + b);
        lemma_percent_concat(a1, b);
        assert(percent_bytes(a + b)
            == percent_byte(a[0]) + (percent_bytes(a1) + percent_bytes(b)));
        assert(percent_byte(a[0]) + (percent_bytes(a1) + percent_bytes(b))
            =~= (percent_byte(a[0]) + percent_bytes(a1)) + percent_bytes(b));
        assert(percent_byte(a[0]) + percent_bytes(a1) =~= percent_bytes(a));
    }
}

fn hex_digit_char(d: u8) -> (r: char)
    requires
        d < 16,
    ensures
        r == hex_digit(d),
{
    match d {
        0 => '0', 1 => '1', 2 => '2', 3 => '3', 4 => '4', 5 => '5', 6 => '6',
        7 => '7', 8 => '8', 9 => '9', 10 => 'A', 11 => 'B', 12 => 'C',
        13 => 'D', 14 => 'E', _ => 'F',
    }
}

fn push_percent(out: &mut Vec<char>, b: u8)
    ensures
        final(out)@ == old(out)@ + percent_byte(b),
{
    let ghost out0 = out@;
    out.push('%');
    out.push(hex_digit_char(b / 16));
    out.push(hex_digit_char(b % 16));
    proof {
        assert(out@ =~= out0 + percent_byte(b));
    }
}

/// Append the percent-escapes of the UTF-8 bytes of a non-ASCII character.
fn push_utf8_percent(out: &mut Vec<char>, c: char)
    requires
        c as u32 >= 128,
    ensures
        final(out)@ == old(out)@ + percent_bytes(utf8_bytes(c)),
{
    let ghost out0 = out@;
    let u = c as u32;
    let ghost bs = utf8_bytes(c);
    if u < 0x800 {
        push_percent(out, (0xC0 + u / 0x40) as u8);
        push_percent(out, (0x80 + u % 0x40) as u8);
        proof {
            assert(bs =~= seq![bs[0]] + seq![bs[1]]);
            lemma_percent_concat(seq![bs[0]], seq![bs[1]]);
            lemma_percent_singleton(bs[0]);
            lemma_percent_singleton(bs[1]);
            assert(out@ =~= out0 + percent_bytes(bs));
        }
    } else if u < 0x10000 {
        push_percent(out, (0xE0 + u / 0x1000) as u8);
        push_percent(out, (0x80 + (u / 0x40) % 0x40) as u8);
        push_percent(out, (0x80 + u % 0x40) as u8);
        proof {
            assert(bs =~= seq![bs[0]] + seq![bs[1]] + seq![bs[2]]);
            lemma_percent_concat(seq![bs[0]] + seq![bs[1]], seq![bs[2]]);
            lemma_percent_concat(seq![bs[0]], seq![bs[1]]);
            lemma_percent_singleton(bs[0]);
            lemma_percent_singleton(bs[1]);
            lemma_percent_singleton(bs[2]);
            assert(out@ =~= out0 + percent_bytes(bs));
        }
    } else {
        push_percent(out, (0xF0 + u / 0x40000) as u8);
        push_percent(out, (0x80 + (u / 0x1000) % 0x40) as u8);
        push_percent(out, (0x80 + (u / 0x40) % 0x40) as u8);
        push_percent(out, (0x80 + u % 0x40) as u8);
        proof {
            assert(bs =~= seq![bs[0]] + seq![bs[1]] + seq![bs[2]] + seq![bs[3]]);
            lemma_percent_concat(seq![bs[0]] + seq![bs[1]] + seq![bs[2]], seq![bs[3]]);
            lemma_percent_concat(seq![bs[0]] + seq![bs[1]], seq![bs[2]]);
            lemma_percent_concat(seq![bs[0]], seq![bs[1]]);
            lemma_percent_singleton(bs[0]);
            lemma_percent_singleton(bs[1]);
            lemma_percent_singleton(bs[2]);
            lemma_percent_singleton(bs[3]);
            assert(out@ =~= out0 + percent_bytes(bs));
        }
    }
}

/// Escape a link destination for use inside a quoted `href` attribute.
pub fn escape_href(s: &str) -> (r: String)
    ensures
        r@ == spec_escape_href(s@),
{
    let chars = str_to_chars(s);
    let n = chars.len();
    let mut out: Vec<char> = Vec::new();
    let mut i: usize = 0;
    proof {
        assert(chars@.subrange(0, n as int) =~= s@);
        assert(Seq::<char>::empty() + spec_escape_href(s@) =~= spec_escape_href(s@));
    }
    while i < n
        invariant
            chars@ == s@,
            n == chars@.len(),
            0 <= i <= n,
            spec_escape_href(s@) ==
                out@ + spec_escape_href(chars@.subrange(i as int, n as int)),
        decreases n - i,
    {
        let ghost suffix = chars@.subrange(i as int, n as int);
        let c = chars[i];
        assert(suffix[0] == c);
        let ghost out0 = out@;
        let u = c as u32;
        if u < 128 {
            let b = u as u8;
            if b == 33 || (35 <= b && b <= 37) || (40 <= b && b <= 59) || b == 61
                || (63 <= b && b <= 90) || b == 94 || b == 95 || (97 <= b && b <= 122)
                || b == 126 {
                out.push(c);
                proof {
                    assert(out@ =~= out0 + seq![c]);
                }
            } else if c == '&' {
                let mut piece = str_to_chars("&amp;");
                out.append(&mut piece);
            } else if c == '\'' {
                let mut piece = str_to_chars("&#x27;");
                out.append(&mut piece);
            } else {
                push_percent(&mut out, b);
            }
        } else {
            push_utf8_percent(&mut out, c);
        }
        proof {
            assert(out@ =~= out0 + href_escape_char(c));
            let rest = suffix.subrange(1, suffix.len() as int);
            assert(spec_escape_href(suffix) == href_escape_char(c) + spec_escape_href(rest));
            assert(rest =~= chars@.subrange(i + 1, n as int));
            assert(out0 + (href_escape_char(c) + spec_escape_href(rest))
                =~= out@ + spec_escape_href(rest));
        }
        i += 1;
    }
    proof {
        assert(chars@.subrange(n as int, n as int) =~= Seq::<char>::empty());
        assert(out@ + spec_escape_href(Seq::<char>::empty()) =~= out@);
    }
    chars_to_string(&out)
}

} // verus!
