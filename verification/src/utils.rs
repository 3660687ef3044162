//! Small text helpers shared by the engine: the whitespace predicate, the
//! content fingerprint, and conversions between `String` and `Vec<char>`.

use vstd::prelude::*;
use crate::format::FormatError;
use crate::tree::{get_parser_lang_from_filename, lang_of_filename};

verus! {

/// The characters the engine treats as whitespace: the Unicode `White_Space`
/// set, the same set `char::is_whitespace` accepts.
pub open spec fn is_ws_char(c: char) -> bool {
    let u = c as u32;
    u == 0x20 || u == 0x09 || u == 0x0A || u == 0x0B || u == 0x0C || u == 0x0D || u == 0x85
        || u == 0xA0 || u == 0x1680 || (0x2000 <= u && u <= 0x200A) || u == 0x2028 || u == 0x2029
        || u == 0x202F || u == 0x205F || u == 0x3000
}

/// Executable check for [`is_ws_char`].
pub fn is_ws(c: char) -> (b: bool)
    ensures
        b == is_ws_char(c),
{
    let u = c as u32;
    u == 0x20 || u == 0x09 || u == 0x0A || u == 0x0B || u == 0x0C || u == 0x0D || u == 0x85
        || u == 0xA0 || u == 0x1680 || (0x2000 <= u && u <= 0x200A) || u == 0x2028 || u == 0x2029
        || u == 0x202F || u == 0x205F || u == 0x3000
}

/// Length of the longest all-whitespace prefix of `s`.
pub open spec fn ws_prefix_len(s: Seq<char>) -> nat
    decreases s.len(),
{
    if s.len() == 0 || !is_ws_char(s[0]) {
        0
    } else {
        (1 + ws_prefix_len(s.skip(1))) as nat
    }
}

/// The longest all-whitespace prefix of `s`.
pub open spec fn leading_ws(s: Seq<char>) -> Seq<char> {
    s.take(ws_prefix_len(s) as int)
}

/// `s` without its longest all-whitespace prefix.
pub open spec fn trimmed_start(s: Seq<char>) -> Seq<char> {
    s.skip(ws_prefix_len(s) as int)
}

/// The all-whitespace prefix stops exactly at the first non-whitespace
/// character.
pub proof fn lemma_ws_prefix_len_is(s: Seq<char>, i: int)
    requires
        0 <= i <= s.len(),
        forall|j: int| 0 <= j < i ==> is_ws_char(s[j]),
        i < s.len() ==> !is_ws_char(s[i]),
    ensures
        ws_prefix_len(s) == i,
    decreases s.len(),
{
    if s.len() != 0 && is_ws_char(s[0]) {
        assert(i > 0);
        lemma_ws_prefix_len_is(s.skip(1), i - 1);
    }
}

/// Collects the characters of a string slice.
///
/// Relies on `str::chars`: the iterator yields exactly the characters of the
/// slice, in order.
#[verifier::external_body]
pub fn str_chars(s: &str) -> (r: Vec<char>)
    ensures
        r@ == s@,
{
    s.chars().collect()
}

/// Builds a string from a sequence of characters.
///
/// Relies on `String`'s `FromIterator<char>` impl: the result holds exactly
/// the collected characters, in order.
#[verifier::external_body]
pub fn string_from_chars(v: &Vec<char>) -> (r: String)
    ensures
        r@ == v@,
{
    v.iter().collect()
}

/// The content fingerprint of a text, used only for equality comparison.
/// It stands for what `get_hash` returns: `std`'s `DefaultHasher` run over
/// the text, which depends on the characters alone.
pub uninterp spec fn fingerprint_of(s: Seq<char>) -> u64;

/// Fingerprints a text for change detection.
///
/// Relies on `std::collections::hash_map::DefaultHasher` (`new`, `Hash::hash`,
/// `finish`): `DefaultHasher::new` always starts from the same fixed keys, so
/// the digest is a function of the hashed text alone.
#[verifier::external_body]
pub fn get_hash(text: &str) -> (r: u64)
    ensures
        r == fingerprint_of(text@),
{
    let mut hasher = std::collections::hash_map::DefaultHasher::new();
    std::hash::Hash::hash(text, &mut hasher);
    std::hash::Hasher::finish(&hasher)
}

/// The leading whitespace of `text`: every character before the first
/// non-whitespace character.
pub fn get_start_whitespace(text: &str) -> (r: String)
    ensures
        r@ == leading_ws(text@),
{
    let chars = str_chars(text);
    let mut i: usize = 0;
    while i < chars.len() && is_ws(chars[i])
        invariant
            0 <= i <= chars@.len(),
            chars@ == text@,
            forall|j: int| 0 <= j < i ==> is_ws_char(chars@[j]),
        decreases chars@.len() - i,
    {
        i += 1;
    }
    proof {
        lemma_ws_prefix_len_is(text@, i as int);
    }
    let mut result: Vec<char> = Vec::new();
    let mut k: usize = 0;
    while k < i
        invariant
            0 <= k <= i <= chars@.len(),
            chars@ == text@,
            result@ == text@.take(k as int),
        decreases i - k,
    {
        result.push(chars[k]);
        proof {
            assert(result@ =~= text@.take(k + 1 as int));
        }
        k += 1;
    }
    string_from_chars(&result)
}

/// Character-for-character equality of two string slices.
pub fn str_eq(a: &str, b: &str) -> (r: bool)
    ensures
        r == (a@ == b@),
{
    let av = str_chars(a);
    let bv = str_chars(b);
    if av.len() != bv.len() {
        return false;
    }
    let mut i: usize = 0;
    while i < av.len()
        invariant
            0 <= i <= av@.len(),
            av@.len() == bv@.len(),
            av@ == a@,
            bv@ == b@,
            forall|j: int| 0 <= j < i ==> av@[j] == bv@[j],
        decreases av@.len() - i,
    {
        if av[i] != bv[i] {
            return false;
        }
        i += 1;
    }
    proof {
        assert(a@ =~= b@);
    }
    true
}

/// A copy of `chars[a..b]`.
pub fn subvec_chars(chars: &Vec<char>, a: usize, b: usize) -> (r: Vec<char>)
    requires
        a <= b <= chars@.len(),
    ensures
        r@ == chars@.subrange(a as int, b as int),
{
    let mut r: Vec<char> = Vec::new();
    let mut k: usize = a;
    while k < b
        invariant
            a <= k <= b <= chars@.len(),
            r@ == chars@.subrange(a as int, k as int),
        decreases b - k,
    {
        r.push(chars[k]);
        proof {
            assert(r@ =~= chars@.subrange(a as int, k + 1 as int));
        }
        k += 1;
    }
    r
}

/// Index of the first newline in `s`, or `s.len()` when there is none.
pub open spec fn first_nl(s: Seq<char>) -> int
    decreases s.len(),
{
    if s.len() == 0 {
        0
    } else if s[0] == '\n' {
        0
    } else {
        1 + first_nl(s.skip(1))
    }
}

pub proof fn lemma_first_nl_bounds(s: Seq<char>)
    ensures
        0 <= first_nl(s) <= s.len(),
        first_nl(s) < s.len() ==> s[first_nl(s)] == '\n',
        forall|j: int| 0 <= j < first_nl(s) ==> s[j] != '\n',
    decreases s.len(),
{
    if s.len() != 0 && s[0] != '\n' {
        lemma_first_nl_bounds(s.skip(1));
        assert forall|j: int| 0 <= j < first_nl(s) implies s[j] != '\n' by {
            if j > 0 {
                assert(s.skip(1)[j - 1] == s[j]);
            }
        }
    }
}

/// The first newline stands exactly where the first `'\n'` character is.
pub proof fn lemma_first_nl_is(s: Seq<char>, i: int)
    requires
        0 <= i <= s.len(),
        forall|j: int| 0 <= j < i ==> s[j] != '\n',
        i < s.len() ==> s[i] == '\n',
    ensures
        first_nl(s) == i,
    decreases s.len(),
{
    if s.len() != 0 && s[0] != '\n' {
        assert(i > 0);
        lemma_first_nl_is(s.skip(1), i - 1);
    }
}

/// A line as `str::lines` yields it: one trailing carriage return is dropped
/// when the line was ended by a newline.
pub open spec fn strip_cr(l: Seq<char>) -> Seq<char> {
    if l.len() > 0 && l[l.len() - 1] == '\r' {
        l.drop_last()
    } else {
        l
    }
}

/// The lines of `s`, as `str::lines` yields them: split at `'\n'`, one
/// carriage return before each newline dropped, a final line ending optional.
pub open spec fn split_lines_spec(s: Seq<char>) -> Seq<Seq<char>>
    decreases s.len(),
    via split_lines_spec_decreases
{
    if s.len() == 0 {
        Seq::empty()
    } else {
        let i = first_nl(s);
        if i == s.len() {
            seq![s]
        } else {
            seq![strip_cr(s.take(i))] + split_lines_spec(s.skip(i + 1))
        }
    }
}

#[via_fn]
proof fn split_lines_spec_decreases(s: Seq<char>) {
    lemma_first_nl_bounds(s);
}

/// The lines of `s`, split exactly as `str::lines` splits them.
pub fn split_lines(s: &str) -> (r: Vec<String>)
    ensures
        r.deep_view() == split_lines_spec(s@),
{
    let chars = str_chars(s);
    let mut r: Vec<String> = Vec::new();
    let mut pos: usize = 0;
    proof {
        assert(s@.skip(0) =~= s@);
        assert(r.deep_view() + split_lines_spec(s@) =~~= split_lines_spec(s@));
    }
    while pos < chars.len()
        invariant
            0 <= pos <= chars@.len(),
            chars@ == s@,
            r.deep_view() + split_lines_spec(s@.skip(pos as int)) =~~= split_lines_spec(s@),
        decreases chars@.len() - pos,
    {
        let ghost prev_dv = r.deep_view();
        let ghost rest = s@.skip(pos as int);
        let mut j: usize = pos;
        while j < chars.len() && chars[j] != '\n'
            invariant
                pos <= j <= chars@.len(),
                chars@ == s@,
                forall|k: int| pos <= k < j ==> chars@[k] != '\n',
            decreases chars@.len() - j,
        {
            j += 1;
        }
        proof {
            assert forall|k: int| 0 <= k < j - pos implies rest[k] != '\n' by {
                assert(rest[k] == s@[pos + k]);
            }
            if j < chars.len() {
                assert(rest[j - pos as int] == s@[j as int]);
            }
            lemma_first_nl_is(rest, j - pos as int);
        }
        let ghost line_spec = if j < chars.len() {
            strip_cr(rest.take(j - pos as int))
        } else {
            rest
        };
        let ghost next_pos = if j < chars.len() {
            j + 1 as int
        } else {
            j as int
        };
        let line: Vec<char>;
        if j < chars.len() {
            // a newline ends this line: drop one carriage return before it
            let end = if j > pos && chars[j - 1] == '\r' {
                j - 1
            } else {
                j
            };
            line = subvec_chars(&chars, pos, end);
            proof {
                assert(rest.take(j - pos as int) =~= s@.subrange(pos as int, j as int));
                assert(line@ =~= line_spec);
                assert(rest.skip(j - pos as int + 1) =~= s@.skip(j + 1 as int));
                assert(split_lines_spec(rest) == seq![line_spec] + split_lines_spec(
                    s@.skip(j + 1 as int),
                ));
            }
        } else {
            line = subvec_chars(&chars, pos, j);
            proof {
                assert(line@ =~= rest);
                assert(rest.len() > 0);
                assert(split_lines_spec(rest) == seq![line_spec]);
                assert(s@.skip(j as int) =~= Seq::<char>::empty());
                assert(split_lines_spec(rest) =~~= seq![line_spec] + split_lines_spec(
                    s@.skip(j as int),
                ));
            }
        }
        r.push(string_from_chars(&line));
        proof {
            assert(r.deep_view() =~~= prev_dv.push(line_spec));
            assert(r.deep_view() + split_lines_spec(s@.skip(next_pos)) =~~= prev_dv + (
            seq![line_spec] + split_lines_spec(s@.skip(next_pos))));
            assert(r.deep_view() + split_lines_spec(s@.skip(next_pos)) =~~= split_lines_spec(s@));
        }
        if j < chars.len() {
            pos = j + 1;
        } else {
            pos = j;
        }
    }
    proof {
        assert(s@.skip(pos as int) =~= Seq::<char>::empty());
        assert(r.deep_view() + split_lines_spec(Seq::<char>::empty()) =~~= r.deep_view());
        assert(r.deep_view() =~~= split_lines_spec(s@));
    }
    r
}

/// The document text obtained by joining `lines` with single newlines, with
/// no trailing newline.
pub open spec fn joined_src(lines: Seq<Seq<char>>) -> Seq<char>
    decreases lines.len(),
{
    if lines.len() == 0 {
        Seq::empty()
    } else if lines.len() == 1 {
        lines[0]
    } else {
        lines[0] + seq!['\n'] + joined_src(lines.skip(1))
    }
}

pub proof fn lemma_joined_src_push(lines: Seq<Seq<char>>, x: Seq<char>)
    ensures
        lines.len() == 0 ==> joined_src(lines.push(x)) == x,
        lines.len() > 0 ==> joined_src(lines.push(x)) == joined_src(lines) + seq!['\n'] + x,
    decreases lines.len(),
{
    if lines.len() == 0 {
        assert(lines.push(x) =~= seq![x]);
        assert(joined_src(seq![x]) == x);
    } else {
        lemma_joined_src_push(lines.skip(1), x);
        assert(lines.push(x).skip(1) =~= lines.skip(1).push(x));
        assert(lines.push(x)[0] == lines[0]);
        if lines.len() == 1 {
            assert(joined_src(lines.push(x)) == lines[0] + seq!['\n'] + joined_src(
                lines.skip(1).push(x),
            ));
            assert(joined_src(lines.skip(1).push(x)) == x);
            assert(joined_src(lines) == lines[0]);
        } else {
            assert(joined_src(lines.push(x)) == lines[0] + seq!['\n'] + (joined_src(lines.skip(1))
                + seq!['\n'] + x));
            assert(lines[0] + seq!['\n'] + (joined_src(lines.skip(1)) + seq!['\n'] + x) =~= (
            lines[0] + seq!['\n'] + joined_src(lines.skip(1))) + seq!['\n'] + x);
        }
    }
}

/// Joins the document lines with single newlines, with no trailing newline:
/// the text handed to the structural parser.
pub fn join_with_newlines(buf: &Vec<String>) -> (r: String)
    ensures
        r@ == joined_src(buf.deep_view()),
{
    let ghost dv = buf.deep_view();
    let mut out = String::new();
    let mut i: usize = 0;
    proof {
        assert(dv.take(0) =~= Seq::<Seq<char>>::empty());
    }
    while i < buf.len()
        invariant
            0 <= i <= buf@.len(),
            dv == buf.deep_view(),
            dv.len() == buf@.len(),
            out@ == joined_src(dv.take(i as int)),
        decreases buf@.len() - i,
    {
        proof {
            reveal_strlit("\n");
        }
        if i > 0 {
            out.append("\n");
        }
        out.append(buf[i].as_str());
        proof {
            assert(buf@[i as int].deep_view() == dv[i as int]);
            lemma_joined_src_push(dv.take(i as int), dv[i as int]);
            assert(dv.take(i as int).push(dv[i as int]) =~= dv.take(i + 1 as int));
            assert("\n"@ =~= seq!['\n']);
            if i > 0 {
                assert(out@ =~= joined_src(dv.take(i + 1 as int)));
            } else {
                assert(out@ =~= joined_src(dv.take(1)));
            }
        }
        i += 1;
    }
    proof {
        assert(dv.take(dv.len() as int) =~= dv);
    }
    out
}

/// Joins the document lines with newlines and guarantees one trailing
/// newline: the terminal form of a processed document.
pub fn render_output(buf: &Vec<String>) -> (r: String)
    ensures
        r@ == joined_src(buf.deep_view()) + seq!['\n'],
{
    let mut out = join_with_newlines(buf);
    proof {
        reveal_strlit("\n");
    }
    out.append("\n");
    proof {
        assert("\n"@ =~= seq!['\n']);
    }
    out
}

/// The decimal digit character for `d`.
pub open spec fn dec_digit(d: int) -> char {
    if d == 0 {
        '0'
    } else if d == 1 {
        '1'
    } else if d == 2 {
        '2'
    } else if d == 3 {
        '3'
    } else if d == 4 {
        '4'
    } else if d == 5 {
        '5'
    } else if d == 6 {
        '6'
    } else if d == 7 {
        '7'
    } else if d == 8 {
        '8'
    } else {
        '9'
    }
}

/// The decimal numeral of `n`, without sign or padding.
pub open spec fn dec_str(n: nat) -> Seq<char>
    decreases n,
{
    if n < 10 {
        seq![dec_digit(n as int)]
    } else {
        dec_str(n / 10).push(dec_digit((n % 10) as int))
    }
}

/// Renders `n` as its decimal numeral.
pub fn usize_to_string(n: usize) -> (r: String)
    ensures
        r@ == dec_str(n as nat),
{
    let mut digits: Vec<char> = Vec::new();
    let mut m: usize = n;
    if m == 0 {
        digits.push('0');
        proof {
            assert(digits@ =~= dec_str(0));
        }
        return string_from_chars(&digits);
    }
    while m > 0
        invariant
            m >= 0,
            m > 0 ==> dec_str(n as nat) == dec_str(m as nat) + digits@.reverse(),
            m == 0 ==> dec_str(n as nat) == digits@.reverse(),
        decreases m,
    {
        let d = m % 10;
        let c = digit_char(d);
        let ghost prev = digits@;
        digits.push(c);
        proof {
            assert(digits@.reverse() =~= seq![c] + prev.reverse());
            if m >= 10 {
                assert(dec_str(m as nat) == dec_str((m / 10) as nat).push(
                    dec_digit((m % 10) as int),
                ));
                assert(dec_str((m / 10) as nat) + digits@.reverse() =~= dec_str(m as nat)
                    + prev.reverse());
            } else {
                assert(dec_str(m as nat) == seq![dec_digit(m as int)]);
                assert(digits@.reverse() =~= dec_str(m as nat) + prev.reverse());
            }
        }
        m = m / 10;
    }
    let mut out: Vec<char> = Vec::new();
    let mut k: usize = digits.len();
    while k > 0
        invariant
            0 <= k <= digits@.len(),
            out@ == digits@.reverse().take(digits@.len() - k),
        decreases k,
    {
        k -= 1;
        out.push(digits[k]);
        proof {
            assert(digits@.reverse()[digits@.len() - k - 1] == digits@[k as int]);
            assert(out@ =~= digits@.reverse().take(digits@.len() - k));
        }
    }
    proof {
        assert(digits@.reverse().take(digits@.len() as int) =~= digits@.reverse());
    }
    string_from_chars(&out)
}

/// Executable mirror of [`dec_digit`].
pub fn digit_char(d: usize) -> (c: char)
    requires
        d < 10,
    ensures
        c == dec_digit(d as int),
{
    if d == 0 {
        '0'
    } else if d == 1 {
        '1'
    } else if d == 2 {
        '2'
    } else if d == 3 {
        '3'
    } else if d == 4 {
        '4'
    } else if d == 5 {
        '5'
    } else if d == 6 {
        '6'
    } else if d == 7 {
        '7'
    } else if d == 8 {
        '8'
    } else {
        '9'
    }
}

/// Whether `c` is a decimal digit.
pub open spec fn is_dec_digit(c: char) -> bool {
    48 <= c as u32 && c as u32 <= 57
}

/// The value of the digit `c`.
pub open spec fn digit_val(c: char) -> int {
    c as u32 - 48
}

/// Whether every character of `s` is a decimal digit.
pub open spec fn all_digits(s: Seq<char>) -> bool {
    forall|j: int| 0 <= j < s.len() ==> is_dec_digit(s[j])
}

/// The value of the decimal numeral `s`.
pub open spec fn dec_val(s: Seq<char>) -> int
    decreases s.len(),
{
    if s.len() == 0 {
        0
    } else {
        dec_val(s.drop_last()) * 10 + digit_val(s.last())
    }
}

pub proof fn lemma_dec_val_nonneg(s: Seq<char>)
    requires
        all_digits(s),
    ensures
        dec_val(s) >= 0,
    decreases s.len(),
{
    if s.len() > 0 {
        assert(all_digits(s.drop_last()));
        lemma_dec_val_nonneg(s.drop_last());
    }
}

pub proof fn lemma_dec_val_prefix_le(s: Seq<char>, i: int)
    requires
        all_digits(s),
        0 <= i <= s.len(),
    ensures
        dec_val(s.take(i)) <= dec_val(s),
    decreases s.len(),
{
    if i == s.len() {
        assert(s.take(i) =~= s);
    } else {
        assert(all_digits(s.drop_last()));
        assert(s.drop_last().take(i) =~= s.take(i));
        lemma_dec_val_prefix_le(s.drop_last(), i);
        lemma_dec_val_nonneg(s.drop_last());
    }
}

/// What `str::parse::<usize>` accepts: an optional leading plus sign, then
/// one or more decimal digits, with a value that fits in `usize`.
pub open spec fn parse_usize_spec(s: Seq<char>) -> Option<usize> {
    let body = if s.len() > 0 && s[0] == '+' {
        s.skip(1)
    } else {
        s
    };
    if body.len() > 0 && all_digits(body) && dec_val(body) <= usize::MAX {
        Some(dec_val(body) as usize)
    } else {
        None
    }
}

/// Parses a decimal numeral the way `str::parse::<usize>` does.
pub fn parse_usize(s: &str) -> (r: Option<usize>)
    ensures
        r == parse_usize_spec(s@),
{
    let chars = str_chars(s);
    let start: usize = if chars.len() > 0 && chars[0] == '+' {
        1
    } else {
        0
    };
    let ghost body = s@.skip(start as int);
    proof {
        if start == 0 {
            assert(body =~= s@);
        }
    }
    if chars.len() == start {
        return None;
    }
    let mut acc: usize = 0;
    let mut i: usize = start;
    proof {
        assert(body.take(0) =~= Seq::<char>::empty());
    }
    while i < chars.len()
        invariant
            start <= i <= chars@.len(),
            chars@ == s@,
            body == s@.skip(start as int),
            start == 0 || (s@.len() > 0 && s@[0] == '+' && start == 1),
            start == 0 ==> !(s@.len() > 0 && s@[0] == '+'),
            forall|j: int| 0 <= j < i - start ==> is_dec_digit(body[j]),
            acc == dec_val(body.take(i - start as int)),
        decreases chars@.len() - i,
    {
        let c = chars[i];
        let u = c as u32;
        if !(48 <= u && u <= 57) {
            proof {
                assert(body[i - start as int] == s@[i as int]);
                assert(!is_dec_digit(body[i - start as int]));
            }
            return None;
        }
        let d = (u - 48) as usize;
        let ghost prev_take = body.take(i - start as int);
        proof {
            assert(body[i - start as int] == s@[i as int]);
        }
        let acc10 = match acc.checked_mul(10) {
            Some(v) => v,
            None => {
                proof {
                    overflow_means_none(body, i - start as int, acc as int * 10 + d as int);
                    if start == 0 {
                        assert(body == s@);
                    } else {
                        assert(s@.len() > 0 && s@[0] == '+');
                        assert(body == s@.skip(1));
                    }
                    lemma_parse_spec_none(s@, body);
                }
                return None;
            },
        };
        let next = match acc10.checked_add(d) {
            Some(v) => v,
            None => {
                proof {
                    overflow_means_none(body, i - start as int, acc as int * 10 + d as int);
                    if start == 0 {
                        assert(body == s@);
                    } else {
                        assert(s@.len() > 0 && s@[0] == '+');
                        assert(body == s@.skip(1));
                    }
                    lemma_parse_spec_none(s@, body);
                }
                return None;
            },
        };
        proof {
            assert(body[i - start as int] == s@[i as int]);
            assert(body.take(i - start as int + 1).drop_last() =~= prev_take);
            assert(body.take(i - start as int + 1).last() == body[i - start as int]);
            assert(dec_val(body.take(i - start as int + 1)) == acc * 10 + d);
        }
        acc = next;
        i += 1;
    }
    proof {
        assert(body.take(s@.len() - start as int) =~= body);
    }
    Some(acc)
}

/// Spells out when [`parse_usize_spec`] rejects its input.
proof fn lemma_parse_spec_none(s: Seq<char>, body: Seq<char>)
    requires
        body == (if s.len() > 0 && s[0] == '+' {
            s.skip(1)
        } else {
            s
        }),
        !(body.len() > 0 && all_digits(body) && dec_val(body) <= usize::MAX),
    ensures
        parse_usize_spec(s) is None,
{
}

/// When the running value exceeds `usize::MAX` at some prefix, the whole
/// numeral does not fit either.
proof fn overflow_means_none(body: Seq<char>, i: int, next_val: int)
    requires
        0 <= i < body.len(),
        forall|j: int| 0 <= j < i ==> is_dec_digit(body[j]),
        is_dec_digit(body[i]),
        next_val == dec_val(body.take(i)) * 10 + digit_val(body[i]),
        next_val > usize::MAX,
    ensures
        all_digits(body) ==> dec_val(body) > usize::MAX,
{
    if all_digits(body) {
        assert(body.take(i + 1).drop_last() =~= body.take(i));
        assert(body.take(i + 1).last() == body[i]);
        assert(dec_val(body.take(i + 1)) == next_val);
        lemma_dec_val_prefix_le(body, i + 1);
    }
}

/// Index of the first whitespace character of `s`, or `s.len()`.
pub open spec fn first_ws(s: Seq<char>) -> int
    decreases s.len(),
{
    if s.len() == 0 {
        0
    } else if is_ws_char(s[0]) {
        0
    } else {
        1 + first_ws(s.skip(1))
    }
}

pub proof fn lemma_first_ws_bounds(s: Seq<char>)
    ensures
        0 <= first_ws(s) <= s.len(),
    decreases s.len(),
{
    if s.len() != 0 && !is_ws_char(s[0]) {
        lemma_first_ws_bounds(s.skip(1));
    }
}

/// The first whitespace stands exactly where the first whitespace character
/// is.
pub proof fn lemma_first_ws_is(s: Seq<char>, i: int)
    requires
        0 <= i <= s.len(),
        forall|j: int| 0 <= j < i ==> !is_ws_char(s[j]),
        i < s.len() ==> is_ws_char(s[i]),
    ensures
        first_ws(s) == i,
    decreases s.len(),
{
    if s.len() != 0 && !is_ws_char(s[0]) {
        assert(i > 0);
        lemma_first_ws_is(s.skip(1), i - 1);
    }
}

/// The whitespace-separated tokens of `s`, as `str::split_whitespace`
/// yields them: maximal runs of non-whitespace characters, in order.
pub open spec fn split_ws_spec(s: Seq<char>) -> Seq<Seq<char>>
    decreases s.len(),
    via split_ws_spec_decreases
{
    if s.len() == 0 {
        Seq::empty()
    } else if is_ws_char(s[0]) {
        split_ws_spec(s.skip(1))
    } else {
        let i = first_ws(s);
        seq![s.take(i)] + split_ws_spec(s.skip(i))
    }
}

#[via_fn]
proof fn split_ws_spec_decreases(s: Seq<char>) {
    lemma_first_ws_bounds(s);
    if s.len() != 0 && !is_ws_char(s[0]) {
        lemma_first_ws_bounds(s.skip(1));
        assert(first_ws(s) == 1 + first_ws(s.skip(1)));
    }
}

/// Splits `s` into its whitespace-separated tokens, as
/// `str::split_whitespace` does.
pub fn split_whitespace_vec(s: &str) -> (r: Vec<String>)
    ensures
        r.deep_view() == split_ws_spec(s@),
{
    let chars = str_chars(s);
    let mut r: Vec<String> = Vec::new();
    let mut pos: usize = 0;
    proof {
        assert(s@.skip(0) =~= s@);
        assert(r.deep_view() + split_ws_spec(s@) =~~= split_ws_spec(s@));
    }
    while pos < chars.len()
        invariant
            0 <= pos <= chars@.len(),
            chars@ == s@,
            r.deep_view() + split_ws_spec(s@.skip(pos as int)) =~~= split_ws_spec(s@),
        decreases chars@.len() - pos,
    {
        let ghost prev_dv = r.deep_view();
        let ghost rest = s@.skip(pos as int);
        if is_ws(chars[pos]) {
            proof {
                assert(rest[0] == s@[pos as int]);
                assert(rest.skip(1) =~= s@.skip(pos + 1 as int));
                assert(split_ws_spec(rest) == split_ws_spec(s@.skip(pos + 1 as int)));
            }
            pos += 1;
        } else {
            let mut j: usize = pos;
            while j < chars.len() && !is_ws(chars[j])
                invariant
                    pos <= j <= chars@.len(),
                    chars@ == s@,
                    forall|k: int| pos <= k < j ==> !is_ws_char(chars@[k]),
                decreases chars@.len() - j,
            {
                j += 1;
            }
            proof {
                assert forall|k: int| 0 <= k < j - pos implies !is_ws_char(rest[k]) by {
                    assert(rest[k] == s@[pos + k]);
                }
                if j < chars.len() {
                    assert(rest[j - pos as int] == s@[j as int]);
                }
                lemma_first_ws_is(rest, j - pos as int);
            }
            let token = subvec_chars(&chars, pos, j);
            proof {
                assert(token@ =~= rest.take(j - pos as int));
                assert(rest.skip(j - pos as int) =~= s@.skip(j as int));
                assert(rest[0] == s@[pos as int]);
                assert(split_ws_spec(rest) == seq![token@] + split_ws_spec(s@.skip(j as int)));
            }
            r.push(string_from_chars(&token));
            proof {
                assert(r.deep_view() =~~= prev_dv.push(token@));
                assert(r.deep_view() + split_ws_spec(s@.skip(j as int)) =~~= prev_dv + (seq![
                    token@,
                ] + split_ws_spec(s@.skip(j as int))));
                assert(r.deep_view() + split_ws_spec(s@.skip(j as int)) =~~= split_ws_spec(s@));
            }
            pos = j;
        }
    }
    proof {
        assert(s@.skip(pos as int) =~= Seq::<char>::empty());
        assert(r.deep_view() + split_ws_spec(Seq::<char>::empty()) =~~= r.deep_view());
        assert(r.deep_view() =~~= split_ws_spec(s@));
    }
    r
}

/// The dialect to parse with: an explicit parser name wins; otherwise the
/// dialect is inferred from the file name; with neither, the run fails.
pub fn get_parser(filename: Option<&str>, parser: Option<&str>) -> (r: Result<String, FormatError>)
    ensures
        parser is Some ==> r is Ok && r->Ok_0@ == parser.unwrap()@,
        parser is None && filename is Some && lang_of_filename(filename.unwrap()@) is Some ==> r
            is Ok && r->Ok_0@ == lang_of_filename(filename.unwrap()@).unwrap(),
        parser is None && (filename is None || lang_of_filename(filename.unwrap()@) is None) ==> r
            is Err && ({
            let e = r->Err_0;
            &&& e.msg@ == "Could not infer parser."@
            &&& (e.filename is Some) == (filename is Some)
            &&& filename is Some ==> e.filename.unwrap()@ == filename.unwrap()@
            &&& e.command is None
            &&& e.language is None
            &&& e.start is None
        }),
{
    match parser {
        Some(p) => Ok(p.to_owned()),
        None => {
            match filename {
                Some(f) => {
                    match get_parser_lang_from_filename(f) {
                        Some(p) => Ok(p.to_owned()),
                        None => Err(
                            FormatError {
                                msg: String::from_str("Could not infer parser."),
                                filename: Some(f.to_owned()),
                                command: None,
                                language: None,
                                start: None,
                            },
                        ),
                    }
                },
                None => Err(
                    FormatError {
                        msg: String::from_str("Could not infer parser."),
                        filename: None,
                        command: None,
                        language: None,
                        start: None,
                    },
                ),
            }
        },
    }
}

} // verus!
