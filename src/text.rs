//! Character-level helpers on text: whitespace, lines and fields.
use vstd::prelude::*;

verus! {

/// The characters that `char::is_whitespace` accepts (Unicode White_Space).
pub open spec fn is_space(c: char) -> bool {
    let u = c as u32;
    ||| 0x09 <= u <= 0x0D
    ||| u == 0x20
    ||| u == 0x85
    ||| u == 0xA0
    ||| u == 0x1680
    ||| 0x2000 <= u <= 0x200A
    ||| u == 0x2028
    ||| u == 0x2029
    ||| u == 0x202F
    ||| u == 0x205F
    ||| u == 0x3000
}

pub fn is_space_char(c: char) -> (r: bool)
    ensures
        r == is_space(c),
{
    let u = c as u32;
    (0x09 <= u && u <= 0x0D) || u == 0x20 || u == 0x85 || u == 0xA0 || u == 0x1680 || (0x2000
        <= u && u <= 0x200A) || u == 0x2028 || u == 0x2029 || u == 0x202F || u == 0x205F || u
        == 0x3000
}

/// The characters of `s`, one per element.
pub fn chars_of(s: &str) -> (r: Vec<char>)
    ensures
        r@ == s@,
{
    let n = s.unicode_len();
    let mut r: Vec<char> = Vec::new();
    let mut i: usize = 0;
    while i < n
        invariant
            n == s@.len(),
            i <= n,
            r@ == s@.take(i as int),
        decreases n - i,
    {
        r.push(s.get_char(i));
        i = i + 1;
        assert(r@ =~= s@.take(i as int));
    }
    assert(r@ =~= s@);
    r
}

/// A line as it stands before its '\n': a '\r' just before the '\n' is no
/// part of it.
pub open spec fn strip_cr(s: Seq<char>) -> Seq<char> {
    if s.len() > 0 && s.last() == '\r' {
        s.drop_last()
    } else {
        s
    }
}

/// The lines of `s[start..]`, scanning from `i`: each '\n' ends a line,
/// and text after the last '\n' is one more line when it is not empty.
pub open spec fn lines_from(s: Seq<char>, start: int, i: int) -> Seq<Seq<char>>
    decreases s.len() - i,
{
    if i >= s.len() {
        if start < s.len() {
            seq![s.subrange(start, s.len() as int)]
        } else {
            seq![]
        }
    } else if s[i] == '\n' {
        seq![strip_cr(s.subrange(start, i))] + lines_from(s, i + 1, i + 1)
    } else {
        lines_from(s, start, i + 1)
    }
}

/// The lines of `s`, as `str::lines` splits them.
pub open spec fn lines(s: Seq<char>) -> Seq<Seq<char>> {
    lines_from(s, 0, 0)
}

/// Splits `s` into its lines.
pub fn split_lines(s: &str) -> (r: Vec<String>)
    ensures
        r@.map_values(|l: String| l@) == lines(s@),
{
    let cs = chars_of(s);
    let n = cs.len();
    let mut r: Vec<String> = Vec::new();
    let mut start: usize = 0;
    let mut i: usize = 0;
    while i < n
        invariant
            cs@ == s@,
            n == s@.len(),
            start <= i <= n,
            r@.map_values(|l: String| l@) + lines_from(s@, start as int, i as int) == lines(s@),
        decreases n - i,
    {
        if cs[i] == '\n' {
            let end: usize = if i > start && cs[i - 1] == '\r' {
                i - 1
            } else {
                i
            };
            let piece = String::from_str(s.substring_char(start, end));
            proof {
                assert(piece@ == strip_cr(s@.subrange(start as int, i as int))) by {
                    if i > start {
                        assert(s@.subrange(start as int, i as int).drop_last() =~= s@.subrange(
                            start as int,
                            i as int - 1,
                        ));
                    }
                }
                let old_r = r@.map_values(|l: String| l@);
                assert(lines_from(s@, start as int, i as int) == seq![piece@] + lines_from(
                    s@,
                    i + 1,
                    i + 1,
                ));
                assert(r@.push(piece).map_values(|l: String| l@) =~= old_r.push(piece@));
                assert(old_r.push(piece@) + lines_from(s@, i + 1, i + 1) =~= old_r + (seq![piece@]
                    + lines_from(s@, i + 1, i + 1)));
            }
            r.push(piece);
            start = i + 1;
        }
        i = i + 1;
    }
    if start < n {
        let piece = String::from_str(s.substring_char(start, n));
        proof {
            let old_r = r@.map_values(|l: String| l@);
            assert(r@.push(piece).map_values(|l: String| l@) =~= old_r.push(piece@));
            assert(old_r + seq![piece@] =~= old_r.push(piece@));
        }
        r.push(piece);
    } else {
        assert(r@.map_values(|l: String| l@) + seq![] =~= r@.map_values(|l: String| l@));
    }
    r
}

/// `s` without the whitespace it starts with.
pub open spec fn skip_space(s: Seq<char>) -> Seq<char>
    decreases s.len(),
{
    if s.len() > 0 && is_space(s[0]) {
        skip_space(s.drop_first())
    } else {
        s
    }
}

/// The length of the run of non-whitespace characters that `s` starts with.
pub open spec fn word_len(s: Seq<char>) -> nat
    decreases s.len(),
{
    if s.len() > 0 && !is_space(s[0]) {
        1 + word_len(s.drop_first())
    } else {
        0
    }
}

/// `s` without the whitespace it ends with.
pub open spec fn trim_end(s: Seq<char>) -> Seq<char>
    decreases s.len(),
{
    if s.len() > 0 && is_space(s.last()) {
        trim_end(s.drop_last())
    } else {
        s
    }
}

/// At most `n` whitespace-separated fields of `s`: the words, where the
/// last of the `n` takes the rest of the text, whitespace at its ends removed.
pub open spec fn fields(s: Seq<char>, n: nat) -> Seq<Seq<char>>
    decreases n,
{
    let t = skip_space(s);
    if n == 0 || t.len() == 0 {
        seq![]
    } else if n == 1 {
        seq![trim_end(t)]
    } else {
        let w = word_len(t) as int;
        seq![t.take(w)] + fields(t.skip(w), (n - 1) as nat)
    }
}

proof fn lemma_skip_step(cs: Seq<char>, p: int)
    requires
        0 <= p < cs.len(),
        is_space(cs[p]),
    ensures
        skip_space(cs.skip(p)) == skip_space(cs.skip(p + 1)),
{
    assert(cs.skip(p).drop_first() =~= cs.skip(p + 1));
}

proof fn lemma_word_step(cs: Seq<char>, p: int)
    requires
        0 <= p < cs.len(),
        !is_space(cs[p]),
    ensures
        word_len(cs.skip(p)) == 1 + word_len(cs.skip(p + 1)),
{
    assert(cs.skip(p).drop_first() =~= cs.skip(p + 1));
}

proof fn lemma_trim_step(cs: Seq<char>, p: int, e: int)
    requires
        0 <= p < e <= cs.len(),
        is_space(cs[e - 1]),
    ensures
        trim_end(cs.subrange(p, e)) == trim_end(cs.subrange(p, e - 1)),
{
    assert(cs.subrange(p, e).drop_last() =~= cs.subrange(p, e - 1));
}

/// Splits `s` into at most `n` fields, as `fields` says.
pub fn split_fields(s: &str, n: usize) -> (r: Vec<String>)
    ensures
        r@.map_values(|f: String| f@) == fields(s@, n as nat),
{
    let cs = chars_of(s);
    let len = cs.len();
    let mut r: Vec<String> = Vec::new();
    let mut pos: usize = 0;
    let mut k: usize = n;
    assert(cs@.skip(0) =~= s@);
    assert(r@.map_values(|f: String| f@) + fields(s@, n as nat) =~= fields(s@, n as nat));
    while k > 0
        invariant
            cs@ == s@,
            len == s@.len(),
            pos <= len,
            k <= n,
            r@.map_values(|f: String| f@) + fields(cs@.skip(pos as int), k as nat) == fields(
                s@,
                n as nat,
            ),
        decreases k,
    {
        let ghost p0 = pos as int;
        while pos < len && is_space_char(cs[pos])
            invariant
                cs@ == s@,
                len == s@.len(),
                p0 <= pos <= len,
                skip_space(cs@.skip(p0)) == skip_space(cs@.skip(pos as int)),
            decreases len - pos,
        {
            proof {
                lemma_skip_step(cs@, pos as int);
            }
            pos = pos + 1;
        }
        let ghost t = cs@.skip(pos as int);
        assert(skip_space(t) == t);
        assert(skip_space(cs@.skip(p0)) == t);
        if pos == len {
            assert(t.len() == 0);
            assert(fields(cs@.skip(p0), k as nat) == Seq::<Seq<char>>::empty());
            assert(r@.map_values(|f: String| f@) + seq![] =~= r@.map_values(|f: String| f@));
            return r;
        }
        if k == 1 {
            let mut end: usize = len;
            while end > pos && is_space_char(cs[end - 1])
                invariant
                    cs@ == s@,
                    len == s@.len(),
                    pos < len,
                    pos <= end <= len,
                    trim_end(cs@.subrange(pos as int, len as int)) == trim_end(
                        cs@.subrange(pos as int, end as int),
                    ),
                decreases end,
            {
                proof {
                    lemma_trim_step(cs@, pos as int, end as int);
                }
                end = end - 1;
            }
            let piece = String::from_str(s.substring_char(pos, end));
            proof {
                assert(trim_end(cs@.subrange(pos as int, end as int)) == cs@.subrange(
                    pos as int,
                    end as int,
                ));
                assert(t =~= cs@.subrange(pos as int, len as int));
                let old_r = r@.map_values(|f: String| f@);
                assert(r@.push(piece).map_values(|f: String| f@) =~= old_r + seq![piece@]);
            }
            r.push(piece);
            return r;
        }
        let start = pos;
        while pos < len && !is_space_char(cs[pos])
            invariant
                cs@ == s@,
                len == s@.len(),
                start <= pos <= len,
                word_len(cs@.skip(start as int)) == (pos - start) + word_len(
                    cs@.skip(pos as int),
                ),
            decreases len - pos,
        {
            proof {
                lemma_word_step(cs@, pos as int);
            }
            pos = pos + 1;
        }
        let piece = String::from_str(s.substring_char(start, pos));
        proof {
            let w = word_len(t) as int;
            assert(w == pos - start);
            assert(t.take(w) =~= cs@.subrange(start as int, pos as int));
            assert(t.skip(w) =~= cs@.skip(pos as int));
            let old_r = r@.map_values(|f: String| f@);
            assert(r@.push(piece).map_values(|f: String| f@) =~= old_r.push(piece@));
            assert(fields(cs@.skip(p0), k as nat) == seq![piece@] + fields(
                cs@.skip(pos as int),
                (k - 1) as nat,
            ));
            assert(old_r.push(piece@) + fields(cs@.skip(pos as int), (k - 1) as nat) =~= old_r + (
            seq![piece@] + fields(cs@.skip(pos as int), (k - 1) as nat)));
        }
        r.push(piece);
        k = k - 1;
    }
    assert(fields(cs@.skip(pos as int), 0) == Seq::<Seq<char>>::empty());
    assert(r@.map_values(|f: String| f@) + seq![] =~= r@.map_values(|f: String| f@));
    r
}

pub open spec fn is_digit(c: char) -> bool {
    48 <= c as u32 <= 57
}

pub open spec fn digit_value(c: char) -> int {
    c as u32 as int - 48
}

/// The digit character for `d` (taken modulo ten).
pub open spec fn digit_char(d: nat) -> char {
    let d = d % 10;
    if d == 0 {
        '0'
    } else if d == 1 {
        '1'
    } else if d == 2 {
        '2'
    } else if d == 3 {
        '3'
    } else if d == 4 {
        '4'
    } else if d == 5 {
        '5'
    } else if d == 6 {
        '6'
    } else if d == 7 {
        '7'
    } else if d == 8 {
        '8'
    } else {
        '9'
    }
}

/// The decimal digits of `n`, without leading zeros.
pub open spec fn nat_digits(n: nat) -> Seq<char>
    decreases n,
{
    if n < 10 {
        seq![digit_char(n)]
    } else {
        nat_digits(n / 10).push(digit_char(n % 10))
    }
}

/// `v` written in decimal, with '-' before a negative value.
pub open spec fn decimal(v: int) -> Seq<char> {
    if v < 0 {
        seq!['-'] + nat_digits((-v) as nat)
    } else {
        nat_digits(v as nat)
    }
}

pub open spec fn all_digits(s: Seq<char>) -> bool {
    forall|i: int| 0 <= i < s.len() ==> is_digit(#[trigger] s[i])
}

/// The value of a run of decimal digits.
pub open spec fn digits_value(s: Seq<char>) -> int
    decreases s.len(),
{
    if s.len() == 0 {
        0
    } else {
        digits_value(s.drop_last()) * 10 + digit_value(s.last())
    }
}

/// A decimal integer: an optional '+' or '-', then at least one digit.
pub open spec fn parse_int(s: Seq<char>) -> Option<int> {
    if s.len() > 0 && (s[0] == '-' || s[0] == '+') {
        let d = s.drop_first();
        if d.len() > 0 && all_digits(d) {
            Some(
                if s[0] == '-' {
                    -digits_value(d)
                } else {
                    digits_value(d)
                },
            )
        } else {
            None
        }
    } else if s.len() > 0 && all_digits(s) {
        Some(digits_value(s))
    } else {
        None
    }
}

/// A decimal integer that fits in an `i32`.
pub open spec fn parse_i32(s: Seq<char>) -> Option<i32> {
    match parse_int(s) {
        Some(v) => if i32::MIN <= v <= i32::MAX {
            Some(v as i32)
        } else {
            None
        },
        None => None,
    }
}

/// Relies on `str::parse::<i32>` (`i32::from_str`): it accepts an optional
/// sign followed by decimal digits, and a value in the range of `i32`.
#[verifier::external_body]
pub(crate) fn parse_i32_text(s: &str) -> (r: Option<i32>)
    ensures
        r == parse_i32(s@),
{
    s.parse::<i32>().ok()
}

/// Relies on `i32`'s `Display` (through `to_string`): the decimal digits
/// without leading zeros, '-' first for a negative value.
#[verifier::external_body]
pub(crate) fn i32_text(v: i32) -> (r: String)
    ensures
        r@ == decimal(v as int),
{
    v.to_string()
}

proof fn lemma_digit_char(d: nat)
    requires
        d < 10,
    ensures
        is_digit(digit_char(d)),
        digit_value(digit_char(d)) == d,
{
}

pub proof fn lemma_nat_digits(n: nat)
    ensures
        nat_digits(n).len() > 0,
        all_digits(nat_digits(n)),
        digits_value(nat_digits(n)) == n,
    decreases n,
{
    if n < 10 {
        lemma_digit_char(n);
        assert(nat_digits(n).drop_last() =~= Seq::<char>::empty());
        assert(digits_value(Seq::<char>::empty()) == 0);
        assert(nat_digits(n).last() == digit_char(n));
    } else {
        lemma_nat_digits(n / 10);
        lemma_digit_char(n % 10);
        let s = nat_digits(n);
        assert(s.drop_last() =~= nat_digits(n / 10));
        assert(n == (n / 10) * 10 + n % 10);
        assert(s.last() == digit_char(n % 10));
        assert(digits_value(s) == digits_value(nat_digits(n / 10)) * 10 + (n % 10));
        assert forall|i: int| 0 <= i < s.len() implies is_digit(#[trigger] s[i]) by {
            if i < s.len() - 1 {
                assert(s[i] == nat_digits(n / 10)[i]);
            }
        }
    }
}

/// Reading back the decimal text of an `i32` gives the same value.
pub proof fn lemma_parse_decimal(v: i32)
    ensures
        parse_i32(decimal(v as int)) == Some(v),
        decimal(v as int).len() > 0,
        forall|i: int| 0 <= i < decimal(v as int).len() ==> !is_space(#[trigger] decimal(v as int)[i]),
{
    let s = decimal(v as int);
    if v < 0 {
        let m = (-v) as nat;
        lemma_nat_digits(m);
        assert(s.drop_first() =~= nat_digits(m));
        assert(s[0] == '-');
        assert forall|i: int| 0 <= i < s.len() implies !is_space(#[trigger] s[i]) by {
            if i > 0 {
                assert(s[i] == nat_digits(m)[i - 1]);
            }
        }
    } else {
        lemma_nat_digits(v as nat);
        assert(is_digit(s[0]));
    }
}

/// No character of `s` is a line break.
pub open spec fn no_newline(s: Seq<char>) -> bool {
    forall|i: int| 0 <= i < s.len() ==> #[trigger] s[i] != '\n'
}

/// No character of `s` is whitespace.
pub open spec fn no_space(s: Seq<char>) -> bool {
    forall|i: int| 0 <= i < s.len() ==> !is_space(#[trigger] s[i])
}

pub proof fn lemma_no_newline_concat(a: Seq<char>, b: Seq<char>)
    requires
        no_newline(a),
        no_newline(b),
    ensures
        no_newline(a + b),
{
    assert forall|i: int| 0 <= i < (a + b).len() implies #[trigger] (a + b)[i] != '\n' by {
        if i >= a.len() {
            assert((a + b)[i] == b[i - a.len()]);
        }
    }
}

pub proof fn lemma_no_space_no_newline(s: Seq<char>)
    requires
        no_space(s),
    ensures
        no_newline(s),
{
    assert forall|i: int| 0 <= i < s.len() implies #[trigger] s[i] != '\n' by {
        assert(!is_space(s[i]));
    }
}

proof fn lemma_lines_shift(pre: Seq<char>, rest: Seq<char>, a: int, b: int)
    requires
        0 <= a <= b <= rest.len(),
    ensures
        lines_from(pre + rest, pre.len() + a, pre.len() + b) == lines_from(rest, a, b),
    decreases rest.len() - b,
{
    let s = pre + rest;
    let k = pre.len() as int;
    if b < rest.len() {
        assert(s[k + b] == rest[b]);
        if rest[b] == '\n' {
            lemma_lines_shift(pre, rest, b + 1, b + 1);
            assert(s.subrange(k + a, k + b) =~= rest.subrange(a, b));
        } else {
            lemma_lines_shift(pre, rest, a, b + 1);
        }
    } else {
        assert(s.subrange(k + a, s.len() as int) =~= rest.subrange(a, rest.len() as int));
    }
}

proof fn lemma_lines_scan(s: Seq<char>, start: int, i: int, j: int)
    requires
        0 <= start <= i <= j <= s.len(),
        forall|k: int| i <= k < j ==> #[trigger] s[k] != '\n',
    ensures
        lines_from(s, start, i) == lines_from(s, start, j),
    decreases j - i,
{
    if i < j {
        lemma_lines_scan(s, start, i + 1, j);
    }
}

/// A line that is neither broken nor ended by '\r', then '\n', comes first
/// among the lines.
pub proof fn lemma_lines_cons(p: Seq<char>, rest: Seq<char>)
    requires
        no_newline(p),
        p.len() == 0 || p.last() != '\r',
    ensures
        lines(p + seq!['\n'] + rest) == seq![p] + lines(rest),
{
    let pre = p + seq!['\n'];
    let s = pre + rest;
    let n = p.len() as int;
    assert forall|k: int| 0 <= k < n implies #[trigger] s[k] != '\n' by {
        assert(s[k] == p[k]);
    }
    lemma_lines_scan(s, 0, 0, n);
    assert(s[n] == '\n');
    assert(s.subrange(0, n) =~= p);
    lemma_lines_shift(pre, rest, 0, 0);
}

pub proof fn lemma_lines_empty()
    ensures
        lines(Seq::<char>::empty()) == Seq::<Seq<char>>::empty(),
{
}

proof fn lemma_word_len_concat(w: Seq<char>, x: Seq<char>)
    requires
        no_space(w),
    ensures
        word_len(w + x) == w.len() + word_len(x),
    decreases w.len(),
{
    if w.len() > 0 {
        assert(!is_space(w[0]));
        assert((w + x).drop_first() =~= w.drop_first() + x);
        lemma_word_len_concat(w.drop_first(), x);
    } else {
        assert(w + x =~= x);
    }
}

/// A word and a space at the front of a text give its first field.
pub proof fn lemma_fields_word(w: Seq<char>, rest: Seq<char>, n: nat)
    requires
        n >= 2,
        w.len() > 0,
        no_space(w),
    ensures
        fields(w + seq![' '] + rest, n) == seq![w] + fields(rest, (n - 1) as nat),
{
    let sp = seq![' '] + rest;
    let s = w + sp;
    assert(w + seq![' '] + rest =~= s);
    assert(!is_space(w[0]));
    assert(s[0] == w[0]);
    assert(skip_space(s) == s);
    lemma_word_len_concat(w, sp);
    assert(is_space(sp[0]));
    assert(word_len(sp) == 0);
    assert(s.take(w.len() as int) =~= w);
    assert(s.skip(w.len() as int) =~= sp);
    assert(sp.drop_first() =~= rest);
    assert(skip_space(sp) == skip_space(rest));
    assert(word_len(s) == w.len());
    assert(fields(s, n) == seq![w] + fields(sp, (n - 1) as nat));
    assert(fields(sp, (n - 1) as nat) == fields(rest, (n - 1) as nat));
}

/// A text that starts and ends with no whitespace is its own last field.
pub proof fn lemma_fields_last(w: Seq<char>)
    requires
        w.len() > 0,
        !is_space(w[0]),
        !is_space(w.last()),
    ensures
        fields(w, 1) == seq![w],
{
    assert(skip_space(w) == w);
    assert(trim_end(w) == w);
}

proof fn lemma_strip_cr_no_newline(s: Seq<char>)
    requires
        no_newline(s),
    ensures
        no_newline(strip_cr(s)),
{
    if s.len() > 0 && s.last() == '\r' {
        assert forall|i: int| 0 <= i < s.drop_last().len() implies #[trigger] s.drop_last()[i]
            != '\n' by {
            assert(s.drop_last()[i] == s[i]);
        }
    }
}

/// No line holds a line break.
pub proof fn lemma_lines_no_newline(s: Seq<char>, start: int, i: int)
    requires
        0 <= start <= i <= s.len(),
        forall|k: int| start <= k < i ==> #[trigger] s[k] != '\n',
    ensures
        forall|j: int|
            0 <= j < lines_from(s, start, i).len() ==> no_newline(#[trigger] lines_from(s, start, i)[j]),
    decreases s.len() - i,
{
    let ls = lines_from(s, start, i);
    if i >= s.len() {
        if start < s.len() {
            let p = s.subrange(start, s.len() as int);
            assert forall|k: int| 0 <= k < p.len() implies #[trigger] p[k] != '\n' by {
                assert(p[k] == s[start + k]);
            }
            assert(ls =~= seq![p]);
        } else {
            assert(ls.len() == 0);
        }
    } else if s[i] == '\n' {
        let p = s.subrange(start, i);
        assert forall|k: int| 0 <= k < p.len() implies #[trigger] p[k] != '\n' by {
            assert(p[k] == s[start + k]);
        }
        lemma_strip_cr_no_newline(p);
        lemma_lines_no_newline(s, i + 1, i + 1);
        let rest = lines_from(s, i + 1, i + 1);
        assert(ls == seq![strip_cr(p)] + rest);
        assert forall|j: int| 0 <= j < ls.len() implies no_newline(#[trigger] ls[j]) by {
            if j > 0 {
                assert(ls[j] == rest[j - 1]);
            }
        }
    } else {
        lemma_lines_no_newline(s, start, i + 1);
        assert(ls == lines_from(s, start, i + 1));
    }
}

proof fn lemma_skip_space_front(s: Seq<char>)
    ensures
        skip_space(s).len() > 0 ==> !is_space(skip_space(s)[0]),
    decreases s.len(),
{
    if s.len() > 0 && is_space(s[0]) {
        lemma_skip_space_front(s.drop_first());
    }
}

proof fn lemma_word_chars(t: Seq<char>)
    ensures
        word_len(t) <= t.len(),
        forall|k: int| 0 <= k < word_len(t) ==> !is_space(#[trigger] t[k]),
    decreases t.len(),
{
    if t.len() > 0 && !is_space(t[0]) {
        let r = t.drop_first();
        lemma_word_chars(r);
        assert forall|k: int| 0 <= k < word_len(t) implies !is_space(#[trigger] t[k]) by {
            if k > 0 {
                assert(t[k] == r[k - 1]);
            }
        }
    }
}

/// Every field but one that takes the rest of the text is a single word.
pub proof fn lemma_fields_words(s: Seq<char>, n: nat)
    ensures
        forall|j: int|
            0 <= j < fields(s, n).len() && j + 1 < n ==> #[trigger] fields(s, n)[j].len() > 0
                && no_space(fields(s, n)[j]),
    decreases n,
{
    let t = skip_space(s);
    let f = fields(s, n);
    if n >= 2 && t.len() > 0 {
        let w = word_len(t) as int;
        lemma_skip_space_front(s);
        lemma_word_chars(t);
        lemma_fields_words(t.skip(w), (n - 1) as nat);
        let rest = fields(t.skip(w), (n - 1) as nat);
        assert forall|j: int| 0 <= j < f.len() && j + 1 < n implies #[trigger] f[j].len() > 0
            && no_space(f[j]) by {
            if j == 0 {
                assert(f[0] == t.take(w));
                assert(word_len(t) >= 1);
                assert forall|k: int| 0 <= k < f[0].len() implies !is_space(#[trigger] f[0][k]) by {
                    assert(f[0][k] == t[k]);
                }
            } else {
                assert(f[j] == rest[j - 1]);
            }
        }
    }
}

} // verus!
