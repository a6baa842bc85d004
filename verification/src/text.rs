//! Character-level helpers for the textual parts of the wire format.

use vstd::prelude::*;

verus! {

/// `pat` stands in `s` at position `i`.
pub open spec fn occurs_at(s: Seq<char>, pat: Seq<char>, i: int) -> bool {
    &&& 0 <= i
    &&& i + pat.len() <= s.len()
    &&& s.subrange(i, i + pat.len()) == pat
}

/// `i` is the leftmost position at which `pat` stands in `s`.
pub open spec fn first_at(s: Seq<char>, pat: Seq<char>, i: int) -> bool {
    &&& occurs_at(s, pat, i)
    &&& forall|j: int| 0 <= j < i ==> !occurs_at(s, pat, j)
}

/// `pat` stands somewhere in `s`.
pub open spec fn contains_sub(s: Seq<char>, pat: Seq<char>) -> bool {
    exists|i: int| occurs_at(s, pat, i)
}

/// The parts of `s` before and after the leftmost `pat`, if there is one.
pub open spec fn split_once(s: Seq<char>, pat: Seq<char>) -> Option<(Seq<char>, Seq<char>)> {
    if exists|i: int| first_at(s, pat, i) {
        let i = choose|i: int| first_at(s, pat, i);
        Some((s.take(i), s.skip(i + pat.len())))
    } else {
        None
    }
}

/// The leftmost position is unique, so `split_once` cuts exactly there.
pub proof fn lemma_split_once_at(s: Seq<char>, pat: Seq<char>, i: int)
    requires
        first_at(s, pat, i),
    ensures
        split_once(s, pat) == Some((s.take(i), s.skip(i + pat.len()))),
{
    let k = choose|k: int| first_at(s, pat, k);
    assert(k == i) by {
        if k < i {
            assert(!occurs_at(s, pat, k));
        }
        if i < k {
            assert(!occurs_at(s, pat, i));
        }
    }
}

/// Without an occurrence there is nothing to cut.
pub proof fn lemma_split_once_none(s: Seq<char>, pat: Seq<char>)
    requires
        !contains_sub(s, pat),
    ensures
        split_once(s, pat) is None,
{
    assert forall|i: int| !first_at(s, pat, i) by {
        assert(!occurs_at(s, pat, i));
    }
}

/// The characters of a string slice, for constant-time indexing.
pub fn chars_of(s: &str) -> (v: Vec<char>)
    ensures
        v@ == s@,
{
    let mut v: Vec<char> = Vec::new();
    for c in it: s.chars()
        invariant
            it.seq() == s@,
            v@ == s@.take(it.index() as int),
    {
        v.push(c);
    }
    v
}

/// Whether `pat` stands in `s` at position `i`.
fn matches_at(s: &Vec<char>, pat: &Vec<char>, i: usize) -> (r: bool)
    requires
        i + pat.len() <= s.len(),
    ensures
        r == occurs_at(s@, pat@, i as int),
{
    let mut k: usize = 0;
    while k < pat.len()
        invariant
            k <= pat.len(),
            i + pat.len() <= s.len(),
            forall|j: int| 0 <= j < k ==> s@[i + j] == pat@[j],
        decreases pat.len() - k,
    {
        if s[i + k] != pat[k] {
            proof {
                assert(s@.subrange(i as int, i + pat.len())[k as int] == s@[i + k]);
            }
            return false;
        }
        k = k + 1;
    }
    proof {
        assert(s@.subrange(i as int, i + pat.len()) =~= pat@);
    }
    true
}

/// The leftmost position at which `pat` stands in `s`.
pub fn find(s: &Vec<char>, pat: &Vec<char>) -> (r: Option<usize>)
    ensures
        match r {
            Some(i) => first_at(s@, pat@, i as int),
            None => !contains_sub(s@, pat@),
        },
{
    if pat.len() > s.len() {
        return None;
    }
    let last: usize = s.len() - pat.len();
    let mut i: usize = 0;
    loop
        invariant
            last == s.len() - pat.len(),
            pat.len() <= s.len(),
            i <= last,
            forall|j: int| 0 <= j < i ==> !occurs_at(s@, pat@, j),
        decreases last - i,
    {
        if matches_at(s, pat, i) {
            return Some(i);
        }
        if i == last {
            return None;
        }
        i = i + 1;
    }
}

/// Cuts `s` at the leftmost `pat`; the separator itself is dropped.
pub fn cut<'a>(s: &'a str, pat: &str) -> (r: Option<(&'a str, &'a str)>)
    ensures
        match r {
            Some((head, tail)) => split_once(s@, pat@) == Some((head@, tail@)),
            None => split_once(s@, pat@) is None,
        },
{
    let sc = chars_of(s);
    let pc = chars_of(pat);
    let n: usize = sc.len();
    let m: usize = pc.len();
    match find(&sc, &pc) {
        Some(i) => {
            proof {
                lemma_split_once_at(s@, pat@, i as int);
                assert(occurs_at(sc@, pc@, i as int));
            }
            let head = s.substring_char(0, i);
            let tail = s.substring_char(i + m, n);
            Some((head, tail))
        },
        None => {
            proof {
                lemma_split_once_none(s@, pat@);
            }
            None
        },
    }
}

/// The texts that a list of strings holds.
pub open spec fn texts(v: Seq<String>) -> Seq<Seq<char>> {
    Seq::new(v.len(), |i: int| v[i]@)
}

/// The parts of a text between the occurrences of a separator, taken from
/// the left. There is always at least one part; it may be empty.
pub open spec fn parts(t: Seq<char>, sep: Seq<char>) -> Seq<Seq<char>>
    decreases t.len(),
    via parts_decreases
{
    if sep.len() == 0 {
        seq![t]
    } else {
        match split_once(t, sep) {
            Some((head, rest)) => seq![head] + parts(rest, sep),
            None => seq![t],
        }
    }
}

#[via_fn]
proof fn parts_decreases(t: Seq<char>, sep: Seq<char>) {
    if sep.len() > 0 && split_once(t, sep) is Some {
        let i = choose|i: int| first_at(t, sep, i);
        assert(occurs_at(t, sep, i));
    }
}

/// The parts of a text between the occurrences of a separator.
pub fn parts_of(t: &str, sep: &str) -> (r: Vec<String>)
    ensures
        texts(r@) == parts(t@, sep@),
{
    let mut out: Vec<String> = Vec::new();
    if sep.unicode_len() == 0 {
        let whole = t.to_owned();
        proof {
            assert(texts(out@.push(whole)) =~= seq![t@]);
        }
        out.push(whole);
        return out;
    }
    proof {
        assert(texts(out@) + parts(t@, sep@) =~= parts(t@, sep@));
    }
    let mut cur: &str = t;
    loop
        invariant
            sep@.len() > 0,
            parts(t@, sep@) == texts(out@) + parts(cur@, sep@),
        decreases cur@.len(),
    {
        match cut(cur, sep) {
            Some((head, rest)) => {
                let piece = head.to_owned();
                proof {
                    let i = choose|i: int| first_at(cur@, sep@, i);
                    assert(occurs_at(cur@, sep@, i));
                    assert(texts(out@.push(piece)) =~= texts(out@) + seq![head@]);
                    assert((texts(out@) + seq![head@]) + parts(rest@, sep@) =~= texts(out@) + (
                    seq![head@] + parts(rest@, sep@)));
                }
                out.push(piece);
                cur = rest;
            },
            None => {
                let piece = cur.to_owned();
                proof {
                    assert(texts(out@.push(piece)) =~= texts(out@) + seq![cur@]);
                }
                out.push(piece);
                return out;
            },
        }
    }
}

/// Whether `s` begins with the character `c`.
pub open spec fn begins_with(s: Seq<char>, c: char) -> bool {
    s.len() > 0 && s[0] == c
}

/// Whether `s` ends with the character `c`.
pub open spec fn finishes_with(s: Seq<char>, c: char) -> bool {
    s.len() > 0 && s.last() == c
}

/// Whether the slice begins with `c`.
pub fn starts_with_char(s: &str, c: char) -> (r: bool)
    ensures
        r == begins_with(s@, c),
{
    s.unicode_len() > 0 && s.get_char(0) == c
}

/// Whether two slices hold the same characters.
pub fn same_text(a: &str, b: &str) -> (r: bool)
    ensures
        r == (a@ == b@),
{
    a.to_owned() == b.to_owned()
}

/// A line as read from the wire is complete when it ends in CR LF.
pub open spec fn ends_with_crlf(raw: Seq<char>) -> bool {
    &&& raw.len() >= 2
    &&& raw[raw.len() - 2] == '\r'
    &&& raw[raw.len() - 1] == '\n'
}

/// The content of a complete line: everything before its CR LF.
pub open spec fn without_crlf(raw: Seq<char>) -> Seq<char> {
    raw.take(raw.len() - 2)
}

/// The content of a line, or `None` when the line lacks its CR LF.
pub fn strip_crlf(raw: &str) -> (r: Option<&str>)
    ensures
        match r {
            Some(content) => ends_with_crlf(raw@) && content@ == without_crlf(raw@),
            None => !ends_with_crlf(raw@),
        },
{
    let n: usize = raw.unicode_len();
    if n >= 2 && raw.get_char(n - 2) == '\r' && raw.get_char(n - 1) == '\n' {
        Some(raw.substring_char(0, n - 2))
    } else {
        None
    }
}

/// `String::push` of the standard library: the string afterwards is the
/// string before with `c` appended, and nothing else changes.
#[verifier::external_body]
pub(crate) fn push_char(s: &mut String, c: char)
    ensures
        final(s)@ == old(s)@.push(c),
{
    s.push(c);
}

/// `String::from_utf8` of the standard library: it gives a string exactly
/// when the bytes are valid UTF-8, and the string then holds the characters
/// that the bytes encode.
#[verifier::external_body]
pub(crate) fn string_from_utf8(bytes: Vec<u8>) -> (r: Option<String>)
    ensures
        r is Some <==> vstd::utf8::valid_utf8(bytes@),
        r matches Some(s) ==> s@ == vstd::utf8::decode_utf8(bytes@),
{
    String::from_utf8(bytes).ok()
}

/// A copy of the bytes from `from` up to `to`.
pub fn copy_range(bytes: &Vec<u8>, from: usize, to: usize) -> (r: Vec<u8>)
    requires
        from <= to <= bytes.len(),
    ensures
        r@ == bytes@.subrange(from as int, to as int),
{
    let mut out: Vec<u8> = Vec::new();
    let mut i: usize = from;
    while i < to
        invariant
            from <= i <= to <= bytes.len(),
            out@ == bytes@.subrange(from as int, i as int),
        decreases to - i,
    {
        out.push(bytes[i]);
        proof {
            assert(bytes@.subrange(from as int, i + 1) =~= bytes@.subrange(
                from as int,
                i as int,
            ).push(bytes@[i as int]));
        }
        i = i + 1;
    }
    out
}

/// The lower-case form of a text, as `str::to_lowercase` of the standard
/// library gives it.
pub uninterp spec fn lowercase(s: Seq<char>) -> Seq<char>;

/// `str::to_lowercase` of the standard library: the result is the
/// lower-case form of the text, which depends on the text alone.
#[verifier::external_body]
pub(crate) fn to_lower(s: &str) -> (r: String)
    ensures
        r@ == lowercase(s@),
{
    s.to_lowercase()
}

/// The lower-case forms of the texts, each in its place.
pub open spec fn lowered(names: Seq<Seq<char>>) -> Seq<Seq<char>> {
    Seq::new(names.len(), |i: int| lowercase(names[i]))
}

/// The lower-case forms of the texts, each in its place.
pub fn lower_each(names: &Vec<String>) -> (r: Vec<String>)
    ensures
        texts(r@) == lowered(texts(names@)),
{
    let mut out: Vec<String> = Vec::new();
    let mut i: usize = 0;
    while i < names.len()
        invariant
            i <= names.len(),
            out@.len() == i,
            forall|j: int| 0 <= j < i ==> (#[trigger] out@[j])@ == lowercase(names@[j]@),
        decreases names.len() - i,
    {
        out.push(to_lower(names[i].as_str()));
        i = i + 1;
    }
    proof {
        assert(texts(out@) =~= lowered(texts(names@)));
    }
    out
}

/// The value of one digit in the given radix: `0-9`, then letters of
/// either case.
pub open spec fn digit_of(c: char, radix: nat) -> Option<nat> {
    let v: int = if '0' <= c && c <= '9' {
        c as int - '0' as int
    } else if 'a' <= c && c <= 'z' {
        c as int - 'a' as int + 10
    } else if 'A' <= c && c <= 'Z' {
        c as int - 'A' as int + 10
    } else {
        radix as int
    };
    if v < radix {
        Some(v as nat)
    } else {
        None
    }
}

/// Every character of `s` is a digit in the given radix.
pub open spec fn all_digits(s: Seq<char>, radix: nat) -> bool {
    forall|i: int| 0 <= i < s.len() ==> (#[trigger] digit_of(s[i], radix)) is Some
}

/// The number that a run of digits writes, most significant digit first.
pub open spec fn digits_value(s: Seq<char>, radix: nat) -> nat
    decreases s.len(),
{
    if s.len() == 0 {
        0
    } else {
        digits_value(s.drop_last(), radix) * radix + digit_of(s.last(), radix).unwrap_or(0)
    }
}

/// What a number text means: an optional `+`, then one or more digits and
/// nothing else.
pub open spec fn parse_number(s: Seq<char>, radix: nat) -> Option<nat> {
    let body = if begins_with(s, '+') { s.skip(1) } else { s };
    if body.len() > 0 && all_digits(body, radix) {
        Some(digits_value(body, radix))
    } else {
        None
    }
}

/// A longer run of digits never writes a smaller number than its prefix.
pub proof fn lemma_value_grows(s: Seq<char>, k: int, radix: nat)
    requires
        0 <= k <= s.len(),
        radix >= 1,
    ensures
        digits_value(s.take(k), radix) <= digits_value(s, radix),
    decreases s.len() - k,
{
    if k == s.len() {
        assert(s.take(k) =~= s);
    } else {
        lemma_value_grows(s.drop_last(), k, radix);
        assert(s.drop_last().take(k) =~= s.take(k));
        let v = digits_value(s.drop_last(), radix);
        assert(v <= v * radix) by (nonlinear_arith)
            requires
                radix >= 1,
                v >= 0,
        ;
    }
}

fn digit_value(c: char, radix: usize) -> (r: Option<usize>)
    requires
        2 <= radix <= 36,
    ensures
        match r {
            Some(d) => digit_of(c, radix as nat) == Some(d as nat) && d < radix,
            None => digit_of(c, radix as nat) is None,
        },
{
    let v: usize = if '0' <= c && c <= '9' {
        (c as u8 - '0' as u8) as usize
    } else if 'a' <= c && c <= 'z' {
        (c as u8 - 'a' as u8) as usize + 10
    } else if 'A' <= c && c <= 'Z' {
        (c as u8 - 'A' as u8) as usize + 10
    } else {
        radix
    };
    if v < radix {
        Some(v)
    } else {
        None
    }
}

/// One more digit multiplies what was written by the radix and adds the
/// digit.
pub proof fn lemma_value_next(s: Seq<char>, k: int, radix: nat)
    requires
        0 <= k < s.len(),
    ensures
        digits_value(s.take(k + 1), radix) == digits_value(s.take(k), radix) * radix + digit_of(
            s[k],
            radix,
        ).unwrap_or(0),
        all_digits(s.take(k), radix) && digit_of(s[k], radix) is Some ==> all_digits(
            s.take(k + 1),
            radix,
        ),
{
    let next = s.take(k + 1);
    assert(next.drop_last() =~= s.take(k));
    assert(next.last() == s[k]);
    if all_digits(s.take(k), radix) && digit_of(s[k], radix) is Some {
        assert forall|j: int| 0 <= j < next.len() implies (#[trigger] digit_of(next[j], radix))
            is Some by {
            if j < k {
                assert(s.take(k)[j] == next[j]);
            }
        }
    }
}

/// Whether one more digit still fits is decided without overflow.
proof fn lemma_fits(acc: int, d: int, radix: int, max: int)
    requires
        radix >= 2,
        0 <= d < radix,
        0 <= acc,
        d <= max,
    ensures
        (acc <= (max - d) / radix) <==> (acc * radix + d <= max),
{
    assert((acc <= (max - d) / radix) <==> (acc * radix + d <= max)) by (nonlinear_arith)
        requires
            radix >= 2,
            0 <= d < radix,
            0 <= acc,
            d <= max,
    ;
}

/// Reads a number text in the given radix. The result is `None` when the
/// text is no number, and also when the number does not fit a `usize`.
pub fn parse_usize(s: &str, radix: usize) -> (r: Option<usize>)
    requires
        2 <= radix <= 36,
    ensures
        match r {
            Some(v) => parse_number(s@, radix as nat) == Some(v as nat),
            None => match parse_number(s@, radix as nat) {
                Some(v) => v > usize::MAX,
                None => true,
            },
        },
{
    let chars = chars_of(s);
    let start: usize = if chars.len() > 0 && chars[0] == '+' {
        1
    } else {
        0
    };
    let ghost body = s@.skip(start as int);
    proof {
        assert(s@.skip(0) =~= s@);
    }
    if start == chars.len() {
        return None;
    }
    let n: usize = chars.len() - start;
    let mut acc: usize = 0;
    let mut k: usize = 0;
    while k < n
        invariant
            2 <= radix <= 36,
            k <= n,
            n == body.len(),
            n + start == chars.len(),
            forall|j: int| 0 <= j < n ==> body[j] == chars@[start + j],
            parse_number(s@, radix as nat) == (if all_digits(body, radix as nat) {
                Some(digits_value(body, radix as nat))
            } else {
                None
            }),
            all_digits(body.take(k as int), radix as nat),
            acc == digits_value(body.take(k as int), radix as nat),
        decreases n - k,
    {
        let c: char = chars[start + k];
        proof {
            lemma_value_next(body, k as int, radix as nat);
        }
        match digit_value(c, radix) {
            None => {
                return None;
            },
            Some(d) => {
                proof {
                    lemma_fits(acc as int, d as int, radix as int, usize::MAX as int);
                }
                if acc > (usize::MAX - d) / radix {
                    proof {
                        lemma_value_grows(body, k + 1, radix as nat);
                    }
                    return None;
                }
                acc = acc * radix + d;
            },
        }
        k = k + 1;
    }
    proof {
        assert(body.take(n as int) =~= body);
    }
    Some(acc)
}

/// The character that writes the digit `d`: `0-9`, then small letters.
pub open spec fn digit_char(d: nat) -> char {
    if d < 10 {
        (('0' as u8 + d) as u8) as char
    } else {
        (('a' as u8 + (d - 10)) as u8) as char
    }
}

/// The digits that write `n` in the given radix, without leading zeros.
pub open spec fn digits_of(n: nat, radix: nat) -> Seq<char>
    decreases n,
    via digits_of_decreases
{
    if n < radix || radix < 2 {
        seq![digit_char(n)]
    } else {
        digits_of(n / radix, radix).push(digit_char(n % radix))
    }
}

#[via_fn]
proof fn digits_of_decreases(n: nat, radix: nat) {
    if n >= radix && radix >= 2 {
        lemma_quotient_smaller(n, radix);
    }
}

proof fn lemma_quotient_smaller(n: nat, radix: nat)
    requires
        n >= radix,
        radix >= 2,
    ensures
        n / radix < n,
        n / radix >= 1,
{
    assert(n / radix < n && n / radix >= 1) by (nonlinear_arith)
        requires
            n >= radix,
            radix >= 2,
    ;
}

fn push_digits(n: usize, radix: usize, out: &mut String)
    requires
        2 <= radix <= 16,
    ensures
        final(out)@ == old(out)@ + digits_of(n as nat, radix as nat),
    decreases n,
{
    if n >= radix {
        proof {
            lemma_quotient_smaller(n as nat, radix as nat);
        }
        push_digits(n / radix, radix, out);
    }
    let d: u8 = (n % radix) as u8;
    let c: char = if d < 10 {
        ('0' as u8 + d) as char
    } else {
        ('a' as u8 + (d - 10)) as char
    };
    push_char(out, c);
    proof {
        if n >= radix {
            assert(final(out)@ =~= old(out)@ + digits_of(n as nat, radix as nat));
        } else {
            assert(n % radix == n) by (nonlinear_arith)
                requires
                    0 <= n < radix,
            ;
            assert(final(out)@ =~= old(out)@ + digits_of(n as nat, radix as nat));
        }
    }
}

/// Writes `n` in the given radix, as `{}` does for radix 10 and `{:x}` for
/// radix 16.
pub fn number_text(n: usize, radix: usize) -> (r: String)
    requires
        2 <= radix <= 16,
    ensures
        r@ == digits_of(n as nat, radix as nat),
{
    let mut out = String::new();
    push_digits(n, radix, &mut out);
    out
}

/// The characters that `digits_of` writes: `0-9` and `a-f`.
pub open spec fn plain_digits(s: Seq<char>) -> bool {
    forall|i: int|
        0 <= i < s.len() ==> ('0' <= #[trigger] s[i] && s[i] <= '9') || ('a' <= s[i] && s[i]
            <= 'f')
}

/// What is written is read back: the digits of a number are a number text
/// for that number.
pub proof fn lemma_digits_round_trip(n: nat, radix: nat)
    requires
        2 <= radix <= 16,
    ensures
        digits_of(n, radix).len() >= 1,
        plain_digits(digits_of(n, radix)),
        all_digits(digits_of(n, radix), radix),
        digits_value(digits_of(n, radix), radix) == n,
        parse_number(digits_of(n, radix), radix) == Some(n),
    decreases n,
{
    let s = digits_of(n, radix);
    if n < radix {
        assert(s =~= seq![digit_char(n)]);
        assert(digit_of(digit_char(n), radix) == Some(n));
        assert(s.drop_last() =~= Seq::<char>::empty());
        assert(digits_value(s.drop_last(), radix) == 0);
        assert(digits_value(s, radix) == 0 * radix + n);
    } else {
        lemma_quotient_smaller(n, radix);
        let q = n / radix;
        let d = n % radix;
        lemma_digits_round_trip(q, radix);
        let before = digits_of(q, radix);
        assert(s == before.push(digit_char(d)));
        assert(d < radix) by (nonlinear_arith)
            requires
                d == n % radix,
                radix >= 2,
        ;
        assert(digit_of(digit_char(d), radix) == Some(d));
        assert(s.drop_last() =~= before);
        assert(s.last() == digit_char(d));
        assert(q * radix + d == n) by (nonlinear_arith)
            requires
                q == n / radix,
                d == n % radix,
                radix >= 2,
        ;
        assert forall|i: int| 0 <= i < s.len() implies (#[trigger] digit_of(s[i], radix))
            is Some by {
            if i < before.len() {
                assert(s[i] == before[i]);
            }
        }
        assert forall|i: int| 0 <= i < s.len() implies ('0' <= #[trigger] s[i] && s[i] <= '9')
            || ('a' <= s[i] && s[i] <= 'f') by {
            if i < before.len() {
                assert(s[i] == before[i]);
            }
        }
    }
    assert(!begins_with(s, '+'));
}

/// Where a pattern stands somewhere, it stands somewhere first.
pub proof fn lemma_first_exists(s: Seq<char>, pat: Seq<char>, i: int) -> (j: int)
    requires
        occurs_at(s, pat, i),
    ensures
        first_at(s, pat, j),
        j <= i,
    decreases i,
{
    if exists|k: int| 0 <= k < i && occurs_at(s, pat, k) {
        let k = choose|k: int| 0 <= k < i && occurs_at(s, pat, k);
        lemma_first_exists(s, pat, k)
    } else {
        i
    }
}

/// The encoding of two texts, one after the other, is the two encodings,
/// one after the other.
pub proof fn lemma_encode_concat(a: Seq<char>, b: Seq<char>)
    ensures
        vstd::utf8::encode_utf8(a + b) == vstd::utf8::encode_utf8(a) + vstd::utf8::encode_utf8(b),
    decreases a.len(),
{
    if a.len() == 0 {
        assert(a + b =~= b);
        assert(vstd::utf8::encode_utf8(a) + vstd::utf8::encode_utf8(b) =~= vstd::utf8::encode_utf8(
            b,
        ));
    } else {
        assert((a + b).drop_first() =~= a.drop_first() + b);
        assert((a + b)[0] == a[0]);
        lemma_encode_concat(a.drop_first(), b);
        assert(vstd::utf8::encode_utf8(a + b) =~= vstd::utf8::encode_utf8(a)
            + vstd::utf8::encode_utf8(b));
    }
}

/// No byte of the encoding of a character other than the line feed is the
/// byte of a line feed.
proof fn lemma_scalar_no_line_feed(c: u32)
    requires
        vstd::utf8::is_scalar(c),
        c != 10,
    ensures
        forall|j: int|
            0 <= j < vstd::utf8::encode_scalar(c).len() ==> vstd::utf8::encode_scalar(c)[j]
                != 10u8,
{
    assert(c <= 0x7F ==> ((c & 0x7F) as u8) != 10u8) by (bit_vector)
        requires
            c != 10,
    ;
    assert((0xC0u8 | (((c >> 6) & 0x1F) as u8)) != 10u8) by (bit_vector);
    assert((0xE0u8 | (((c >> 12) & 0x0F) as u8)) != 10u8) by (bit_vector);
    assert((0xF0u8 | (((c >> 18) & 0x7) as u8)) != 10u8) by (bit_vector);
    assert((0x80u8 | ((c & 0x3F) as u8)) != 10u8) by (bit_vector);
    assert((0x80u8 | (((c >> 6) & 0x3F) as u8)) != 10u8) by (bit_vector);
    assert((0x80u8 | (((c >> 12) & 0x3F) as u8)) != 10u8) by (bit_vector);
}

/// The encoding of a text without a line feed holds no line feed byte.
pub proof fn lemma_encode_no_line_feed(s: Seq<char>)
    requires
        forall|i: int| 0 <= i < s.len() ==> s[i] != '\n',
    ensures
        forall|j: int|
            0 <= j < vstd::utf8::encode_utf8(s).len() ==> vstd::utf8::encode_utf8(s)[j] != 10u8,
    decreases s.len(),
{
    if s.len() > 0 {
        let c: u32 = s[0] as u32;
        vstd::utf8::char_is_scalar(s[0]);
        assert(s[0] != '\n');
        assert(c != 10) by {
            vstd::utf8::char_u32_cast(s[0], c);
            vstd::utf8::char_u32_cast('\n', 10u32);
        }
        lemma_scalar_no_line_feed(c);
        let first = vstd::utf8::encode_scalar(c);
        let rest = vstd::utf8::encode_utf8(s.drop_first());
        assert(vstd::utf8::encode_utf8(s) == first + rest);
        assert forall|i: int| 0 <= i < s.drop_first().len() implies s.drop_first()[i] != '\n' by {
            assert(s.drop_first()[i] == s[i + 1]);
        }
        lemma_encode_no_line_feed(s.drop_first());
        assert forall|j: int| 0 <= j < (first + rest).len() implies (first + rest)[j] != 10u8 by {
            if j < first.len() {
                assert((first + rest)[j] == first[j]);
            } else {
                assert((first + rest)[j] == rest[j - first.len()]);
            }
        }
    }
}

} // verus!
