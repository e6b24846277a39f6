use vstd::prelude::*;

verus! {

// ---------------------------------------------------------------------------
// Specifications over character sequences
// ---------------------------------------------------------------------------

/// `s` begins with `p`.
pub open spec fn has_prefix(s: Seq<char>, p: Seq<char>) -> bool {
    p.len() <= s.len() && s.take(p.len() as int) == p
}

/// `s` ends with `p`.
pub open spec fn has_suffix(s: Seq<char>, p: Seq<char>) -> bool {
    p.len() <= s.len() && s.skip(s.len() - p.len()) == p
}

/// Index of the first `c` in `s`, or -1 when `s` holds no `c`.
pub open spec fn find_char(s: Seq<char>, c: char) -> int
    decreases s.len(),
{
    if s.len() == 0 {
        -1
    } else if s[0] == c {
        0
    } else {
        let r = find_char(s.skip(1), c);
        if r < 0 {
            -1
        } else {
            r + 1
        }
    }
}

/// Index of the last `c` in `s`, or -1 when `s` holds no `c`.
pub open spec fn rfind_char(s: Seq<char>, c: char) -> int
    decreases s.len(),
{
    if s.len() == 0 {
        -1
    } else if s.last() == c {
        s.len() - 1
    } else {
        rfind_char(s.drop_last(), c)
    }
}

/// The part of `s` before its first `c` (all of `s` when there is none).
pub open spec fn before_first(s: Seq<char>, c: char) -> Seq<char> {
    let i = find_char(s, c);
    if i < 0 {
        s
    } else {
        s.take(i)
    }
}

/// The part of `s` after its last `c` (all of `s` when there is none).
pub open spec fn after_last(s: Seq<char>, c: char) -> Seq<char> {
    s.skip(rfind_char(s, c) + 1)
}

pub open spec fn is_digit(c: char) -> bool {
    '0' <= c && c <= '9'
}

pub open spec fn digit_value(c: char) -> nat {
    (c as int - '0' as int) as nat
}

pub open spec fn all_digits(s: Seq<char>) -> bool {
    forall|i: int| 0 <= i < s.len() ==> is_digit(#[trigger] s[i])
}

/// The value of a string of decimal digits.
pub open spec fn digits_value(s: Seq<char>) -> nat
    decreases s.len(),
{
    if s.len() == 0 {
        0
    } else {
        digits_value(s.drop_last()) * 10 + digit_value(s.last())
    }
}

/// The digits that an unsigned integer parse reads: one leading `+` is dropped.
pub open spec fn unsigned_digits(s: Seq<char>) -> Seq<char> {
    if s.len() > 0 && s[0] == '+' {
        s.skip(1)
    } else {
        s
    }
}

/// What `str::parse` gives for an unsigned integer type whose largest value is
/// `max`: an optional `+`, then one or more decimal digits whose value fits.
pub open spec fn parse_unsigned(s: Seq<char>, max: nat) -> Option<nat> {
    let d = unsigned_digits(s);
    if d.len() > 0 && all_digits(d) && digits_value(d) <= max {
        Some(digits_value(d))
    } else {
        None
    }
}

pub open spec fn parse_u32_spec(s: Seq<char>) -> Option<u32> {
    match parse_unsigned(s, u32::MAX as nat) {
        Some(v) => Some(v as u32),
        None => None,
    }
}

pub open spec fn parse_u64_spec(s: Seq<char>) -> Option<u64> {
    match parse_unsigned(s, u64::MAX as nat) {
        Some(v) => Some(v as u64),
        None => None,
    }
}

pub open spec fn digit_char(d: nat) -> char {
    (d + '0' as nat) as char
}

/// The decimal rendering of `n`, without leading zeros.
pub open spec fn decimal(n: nat) -> Seq<char>
    decreases n,
{
    if n < 10 {
        seq![digit_char(n)]
    } else {
        decimal(n / 10).push(digit_char(n % 10))
    }
}

pub open spec fn hex_digit(d: nat) -> char {
    if d < 10 {
        (d + '0' as nat) as char
    } else {
        (d - 10 + 'a' as nat) as char
    }
}

/// The last `width` lower-case hexadecimal digits of `n`, zero-padded.
pub open spec fn hex_fixed(n: nat, width: nat) -> Seq<char>
    decreases width,
{
    if width == 0 {
        Seq::empty()
    } else {
        hex_fixed(n / 16, (width - 1) as nat).push(hex_digit(n % 16))
    }
}

pub open spec fn is_hex_lower(c: char) -> bool {
    ('0' <= c && c <= '9') || ('a' <= c && c <= 'f')
}

/// Two lower-case hexadecimal digits per byte, in order.
pub open spec fn bytes_hex(b: Seq<u8>) -> Seq<char>
    decreases b.len(),
{
    if b.len() == 0 {
        Seq::empty()
    } else {
        bytes_hex(b.drop_last()) + hex_fixed(b.last() as nat, 2)
    }
}

/// The characters that `char::is_whitespace` accepts (Unicode `White_Space`).
pub open spec fn is_space(c: char) -> bool {
    ||| ('\u{9}' <= c && c <= '\u{d}')
    ||| c == ' '
    ||| c == '\u{85}'
    ||| c == '\u{a0}'
    ||| c == '\u{1680}'
    ||| ('\u{2000}' <= c && c <= '\u{200a}')
    ||| c == '\u{2028}'
    ||| c == '\u{2029}'
    ||| c == '\u{202f}'
    ||| c == '\u{205f}'
    ||| c == '\u{3000}'
}

/// `s` without its leading white space.
pub open spec fn trim_start(s: Seq<char>) -> Seq<char>
    decreases s.len(),
{
    if s.len() > 0 && is_space(s[0]) {
        trim_start(s.skip(1))
    } else {
        s
    }
}

/// `s` without its trailing white space.
pub open spec fn trim_end(s: Seq<char>) -> Seq<char>
    decreases s.len(),
{
    if s.len() > 0 && is_space(s.last()) {
        trim_end(s.drop_last())
    } else {
        s
    }
}

/// `str::trim`: `s` without leading and trailing white space.
pub open spec fn trim(s: Seq<char>) -> Seq<char> {
    trim_end(trim_start(s))
}

/// One line as `str::lines` yields it: the text before a line feed, without
/// one carriage return that directly precedes the line feed.
pub open spec fn strip_cr(l: Seq<char>) -> Seq<char> {
    if l.len() > 0 && l.last() == '\r' {
        l.drop_last()
    } else {
        l
    }
}

/// `str::lines`: the text split at each line feed; a line that ends in a line
/// feed loses it and one carriage return before it; a final line without a
/// line feed is kept as it is; nothing follows a final line feed.
pub open spec fn lines(s: Seq<char>) -> Seq<Seq<char>>
    decreases s.len(),
{
    if s.len() == 0 {
        Seq::empty()
    } else {
        let i = find_char(s, '\n');
        if i < 0 {
            seq![s]
        } else {
            proof {
                lemma_find_char_ensures(s, '\n');
            }
            seq![strip_cr(s.take(i))] + lines(s.skip(i + 1))
        }
    }
}

/// `s` with every non-overlapping occurrence of `p` (found left to right)
/// removed, as `str::replace(p, "")` does.
pub open spec fn remove_all(s: Seq<char>, p: Seq<char>) -> Seq<char>
    recommends
        p.len() > 0,
    decreases s.len(),
{
    if s.len() == 0 || p.len() == 0 {
        s
    } else if has_prefix(s, p) {
        remove_all(s.skip(p.len() as int), p)
    } else {
        seq![s[0]] + remove_all(s.skip(1), p)
    }
}

/// `path` joined with the component `comp` as `Path::join` does on Unix: an
/// absolute component replaces the path; otherwise one `/` separates them
/// unless the path is empty or already ends with `/`.
pub open spec fn path_join(path: Seq<char>, comp: Seq<char>) -> Seq<char> {
    if comp.len() > 0 && comp[0] == '/' {
        comp
    } else if path.len() == 0 || path.last() == '/' {
        path + comp
    } else {
        path + seq!['/'] + comp
    }
}

// ---------------------------------------------------------------------------
// Lemmas
// ---------------------------------------------------------------------------

/// `find_char` is the first position that holds `c`.
pub proof fn lemma_find_char(s: Seq<char>, c: char, i: int)
    requires
        0 <= i <= s.len(),
        forall|j: int| 0 <= j < i ==> s[j] != c,
        i < s.len() ==> s[i] == c,
    ensures
        find_char(s, c) == (if i == s.len() { -1 } else { i }),
    decreases s.len(),
{
    if s.len() > 0 && i > 0 {
        lemma_find_char(s.skip(1), c, i - 1);
    }
}

/// `find_char` gives -1 or a position that holds `c` with no `c` before it.
pub proof fn lemma_find_char_ensures(s: Seq<char>, c: char)
    ensures
        -1 <= find_char(s, c) < s.len(),
        find_char(s, c) >= 0 ==> s[find_char(s, c)] == c,
        forall|j: int| 0 <= j < s.len() && (find_char(s, c) < 0 || j < find_char(s, c)) ==> s[j]
            != c,
    decreases s.len(),
{
    if s.len() > 0 && s[0] != c {
        lemma_find_char_ensures(s.skip(1), c);
        assert forall|j: int|
            0 <= j < s.len() && (find_char(s, c) < 0 || j < find_char(s, c)) implies s[j] != c by {
            if j > 0 {
                assert(s.skip(1)[j - 1] == s[j]);
            }
        }
    }
}

/// `rfind_char` is the last position that holds `c`.
pub proof fn lemma_rfind_char(s: Seq<char>, c: char, i: int)
    requires
        -1 <= i < s.len(),
        forall|j: int| i < j < s.len() ==> s[j] != c,
        i >= 0 ==> s[i] == c,
    ensures
        rfind_char(s, c) == i,
    decreases s.len(),
{
    if s.len() > 0 && i < s.len() - 1 {
        lemma_rfind_char(s.drop_last(), c, i);
    }
}

/// The value of a prefix of a digit string is at most the value of the whole.
pub proof fn lemma_digits_value_prefix(s: Seq<char>, i: int)
    requires
        0 <= i <= s.len(),
    ensures
        digits_value(s.take(i)) <= digits_value(s),
    decreases s.len(),
{
    if i < s.len() {
        lemma_digits_value_prefix(s.drop_last(), i);
        assert(s.drop_last().take(i) =~= s.take(i));
    } else {
        assert(s.take(i) =~= s);
    }
}

/// Reading one more digit multiplies by ten and adds it.
pub proof fn lemma_digits_value_step(s: Seq<char>, i: int)
    requires
        0 <= i < s.len(),
    ensures
        digits_value(s.take(i + 1)) == digits_value(s.take(i)) * 10 + digit_value(s[i]),
{
    assert(s.take(i + 1).drop_last() =~= s.take(i));
}

pub proof fn lemma_digit_char(d: nat)
    requires
        d < 10,
    ensures
        is_digit(digit_char(d)),
        digit_value(digit_char(d)) == d,
        digit_char(d) != '+',
{
}

/// A decimal rendering is a non-empty string of digits whose value is the number.
pub proof fn lemma_decimal(n: nat)
    ensures
        decimal(n).len() > 0,
        all_digits(decimal(n)),
        digits_value(decimal(n)) == n,
        decimal(n)[0] != '+',
    decreases n,
{
    lemma_digit_char(n % 10);
    if n < 10 {
        assert(decimal(n).drop_last() =~= Seq::<char>::empty());
        assert(digits_value(Seq::<char>::empty()) == 0);
        assert(digits_value(decimal(n)) == digits_value(decimal(n).drop_last()) * 10 + digit_value(decimal(n).last()));
    } else {
        lemma_decimal(n / 10);
        assert(decimal(n).drop_last() =~= decimal(n / 10));
        assert(decimal(n).last() == digit_char(n % 10));
        assert(n / 10 * 10 + n % 10 == n);
        assert(digits_value(decimal(n)) == digits_value(decimal(n / 10)) * 10 + digit_value(digit_char(n % 10)));
        assert(decimal(n)[0] == decimal(n / 10)[0]);
    }
}

/// Parsing a decimal rendering gives the number back.
pub proof fn lemma_parse_decimal(n: nat, max: nat)
    requires
        n <= max,
    ensures
        parse_unsigned(decimal(n), max) == Some(n),
{
    lemma_decimal(n);
}

pub proof fn lemma_hex_fixed(n: nat, width: nat)
    ensures
        hex_fixed(n, width).len() == width,
        forall|i: int| 0 <= i < width ==> is_hex_lower(#[trigger] hex_fixed(n, width)[i]),
    decreases width,
{
    if width > 0 {
        lemma_hex_fixed(n / 16, (width - 1) as nat);
        let d = n % 16;
        assert(is_hex_lower(hex_digit(d)));
        assert forall|i: int| 0 <= i < width implies is_hex_lower(#[trigger] hex_fixed(n, width)[i]) by {
            if i < width - 1 {
                assert(hex_fixed(n, width)[i] == hex_fixed(n / 16, (width - 1) as nat)[i]);
            }
        }
    }
}

pub proof fn lemma_bytes_hex(b: Seq<u8>)
    ensures
        bytes_hex(b).len() == 2 * b.len(),
        forall|i: int| 0 <= i < bytes_hex(b).len() ==> is_hex_lower(#[trigger] bytes_hex(b)[i]),
    decreases b.len(),
{
    if b.len() > 0 {
        lemma_bytes_hex(b.drop_last());
        lemma_hex_fixed(b.last() as nat, 2);
        let x = bytes_hex(b.drop_last());
        let y = hex_fixed(b.last() as nat, 2);
        assert forall|i: int| 0 <= i < bytes_hex(b).len() implies is_hex_lower(
            #[trigger] bytes_hex(b)[i],
        ) by {
            if i < x.len() {
                assert(bytes_hex(b)[i] == x[i]);
            } else {
                assert(bytes_hex(b)[i] == y[i - x.len()]);
            }
        }
    }
}

// ---------------------------------------------------------------------------
// Executable helpers over characters
// ---------------------------------------------------------------------------

/// A string made of the given characters.
#[verifier::external_body]
pub fn string_from_chars(v: &[char]) -> (s: String)
    ensures
        s@ == v@,
{
    v.iter().collect()
}

/// Does `s` hold `p` at position `at`?
pub fn matches_at(s: &[char], at: usize, p: &[char]) -> (r: bool)
    requires
        at <= s@.len(),
    ensures
        r == has_prefix(s@.skip(at as int), p@),
{
    if p.len() > s.len() - at {
        return false;
    }
    let mut i: usize = 0;
    while i < p.len()
        invariant
            at <= s@.len(),
            at + p@.len() <= s@.len(),
            p@.len() <= s@.len() - at,
            0 <= i <= p@.len(),
            forall|j: int| 0 <= j < i ==> s@[at + j] == p@[j],
        decreases p@.len() - i,
    {
        assert(at + i < s@.len());
        assert(s@.len() == s.len());
        let k: usize = at + i;
        if s[k] != p[i] {
            assert(s@.skip(at as int).take(p@.len() as int)[i as int] != p@[i as int]);
            return false;
        }
        i += 1;
    }
    assert(s@.skip(at as int).take(p@.len() as int) =~= p@);
    true
}

pub fn starts_with(s: &[char], p: &[char]) -> (r: bool)
    ensures
        r == has_prefix(s@, p@),
{
    assert(s@.skip(0) =~= s@);
    matches_at(s, 0, p)
}

pub fn ends_with(s: &[char], p: &[char]) -> (r: bool)
    ensures
        r == has_suffix(s@, p@),
{
    if p.len() > s.len() {
        return false;
    }
    let at = s.len() - p.len();
    let r = matches_at(s, at, p);
    assert(s@.skip(at as int).take(p@.len() as int) =~= s@.skip(at as int));
    r
}

/// The characters `s[from..to]`.
pub fn slice_chars(s: &[char], from: usize, to: usize) -> (r: Vec<char>)
    requires
        from <= to <= s@.len(),
    ensures
        r@ == s@.subrange(from as int, to as int),
{
    let mut r: Vec<char> = Vec::new();
    let mut i = from;
    while i < to
        invariant
            from <= i <= to <= s@.len(),
            r@ == s@.subrange(from as int, i as int),
        decreases to - i,
    {
        r.push(s[i]);
        i += 1;
        assert(r@ =~= s@.subrange(from as int, i as int));
    }
    r
}

/// `a` followed by `b`.
pub fn concat(a: &[char], b: &[char]) -> (r: Vec<char>)
    ensures
        r@ == a@ + b@,
{
    let mut r: Vec<char> = Vec::new();
    let mut i: usize = 0;
    while i < a.len()
        invariant
            0 <= i <= a@.len(),
            r@ == a@.take(i as int),
        decreases a@.len() - i,
    {
        r.push(a[i]);
        i += 1;
        assert(r@ =~= a@.take(i as int));
    }
    let mut j: usize = 0;
    while j < b.len()
        invariant
            0 <= j <= b@.len(),
            r@ == a@ + b@.take(j as int),
        decreases b@.len() - j,
    {
        r.push(b[j]);
        j += 1;
        assert(r@ =~= a@ + b@.take(j as int));
    }
    assert(a@.take(a@.len() as int) =~= a@);
    assert(b@.take(b@.len() as int) =~= b@);
    r
}

/// Appends the characters of `b` to `out`.
pub fn append_chars(out: &mut Vec<char>, b: &[char])
    ensures
        final(out)@ == old(out)@ + b@,
{
    let mut j: usize = 0;
    while j < b.len()
        invariant
            0 <= j <= b@.len(),
            out@ == old(out)@ + b@.take(j as int),
        decreases b@.len() - j,
    {
        out.push(b[j]);
        j += 1;
        assert(out@ =~= old(out)@ + b@.take(j as int));
    }
    assert(b@.take(b@.len() as int) =~= b@);
}

/// Appends the characters of `s` to `out`.
pub fn append_str(out: &mut Vec<char>, s: &str)
    ensures
        final(out)@ == old(out)@ + s@,
{
    let v = chars_of(s);
    append_chars(out, &v);
}

/// The characters of a string slice, in order.
pub fn chars_of(s: &str) -> (r: Vec<char>)
    ensures
        r@ == s@,
{
    let mut r: Vec<char> = Vec::new();
    for c in it: s.chars()
        invariant
            r@ == it.seq().take(it.index() as int),
    {
        r.push(c);
    }
    r
}

/// Position of the first `c` in `s`, if any.
pub fn find(s: &[char], c: char) -> (r: Option<usize>)
    ensures
        match r {
            Some(i) => find_char(s@, c) == i as int,
            None => find_char(s@, c) == -1,
        },
{
    let mut i: usize = 0;
    while i < s.len()
        invariant
            0 <= i <= s@.len(),
            forall|j: int| 0 <= j < i ==> s@[j] != c,
        decreases s@.len() - i,
    {
        if s[i] == c {
            proof {
                lemma_find_char(s@, c, i as int);
            }
            return Some(i);
        }
        i += 1;
    }
    proof {
        lemma_find_char(s@, c, s@.len() as int);
    }
    None
}

/// Position of the last `c` in `s`, if any.
pub fn rfind(s: &[char], c: char) -> (r: Option<usize>)
    ensures
        match r {
            Some(i) => rfind_char(s@, c) == i as int && i < s@.len(),
            None => rfind_char(s@, c) == -1,
        },
{
    let mut i: usize = s.len();
    while i > 0
        invariant
            0 <= i <= s@.len(),
            forall|j: int| i <= j < s@.len() ==> s@[j] != c,
        decreases i,
    {
        if s[i - 1] == c {
            proof {
                lemma_rfind_char(s@, c, i - 1);
            }
            return Some(i - 1);
        }
        i -= 1;
    }
    proof {
        lemma_rfind_char(s@, c, -1);
    }
    None
}

/// The part of `s` before its first `c`.
pub fn take_before_first(s: &[char], c: char) -> (r: Vec<char>)
    ensures
        r@ == before_first(s@, c),
{
    match find(s, c) {
        Some(i) => {
            proof {
                lemma_find_char_ensures(s@, c);
            }
            slice_chars(s, 0, i)
        },
        None => {
            assert(s@.subrange(0, s@.len() as int) =~= s@);
            slice_chars(s, 0, s.len())
        },
    }
}

/// The part of `s` after its last `c`.
pub fn take_after_last(s: &[char], c: char) -> (r: Vec<char>)
    ensures
        r@ == after_last(s@, c),
{
    match rfind(s, c) {
        Some(i) => {
            assert(s@.len() == s.len());
            let r = slice_chars(s, i + 1, s.len());
            assert(r@ =~= s@.skip(i + 1));
            r
        },
        None => {
            let r = slice_chars(s, 0, s.len());
            assert(r@ =~= s@.skip(0));
            r
        },
    }
}

/// `str::parse::<u64>` on `s`, also checking the value against `max`.
pub fn parse_unsigned_exec(s: &[char], max: u64) -> (r: Option<u64>)
    ensures
        match r {
            Some(v) => parse_unsigned(s@, max as nat) == Some(v as nat),
            None => parse_unsigned(s@, max as nat) is None,
        },
{
    let start: usize = if s.len() > 0 && s[0] == '+' {
        1
    } else {
        0
    };
    let ghost d = unsigned_digits(s@);
    assert(d =~= s@.skip(start as int));
    if start >= s.len() {
        return None;
    }
    let mut acc: u64 = 0;
    let mut i: usize = start;
    while i < s.len()
        invariant
            start <= i <= s@.len(),
            d == unsigned_digits(s@),
            d == s@.skip(start as int),
            start < s@.len(),
            all_digits(d.take(i - start)),
            acc as nat == digits_value(d.take(i - start)),
            acc <= max,
        decreases s@.len() - i,
    {
        let c = s[i];
        if !('0' <= c && c <= '9') {
            assert(d[i - start] == c);
            assert(!is_digit(d[i - start]));
            assert(!all_digits(d));
            return None;
        }
        let dv: u64 = (c as u32 - '0' as u32) as u64;
        if dv > max {
            proof {
                lemma_digits_value_step(d, i - start);
                assert(d[i - start] == c);
                lemma_digits_value_prefix(d, i - start + 1);
            }
            return None;
        }
        proof {
            lemma_digits_value_step(d, i - start);
            assert(d[i - start] == c);
        }
        if acc > (max - dv) / 10 {
            proof {
                assert(acc * 10 + dv > max) by (nonlinear_arith)
                    requires
                        acc > (max - dv) / 10,
                        dv <= 9,
                        dv <= max || true,
                ;
                lemma_digits_value_prefix(d, i - start + 1);
            }
            return None;
        }
        proof {
            assert(acc * 10 + dv <= max) by (nonlinear_arith)
                requires
                    acc <= (max - dv) / 10,
                    dv <= max,
            ;
        }
        acc = acc * 10 + dv;
        i += 1;
        assert forall|j: int| 0 <= j < i - start implies is_digit(#[trigger] d.take(i - start)[j]) by {
            if j < i - start - 1 {
                assert(d.take(i - start)[j] == d.take(i - start - 1)[j]);
            }
        }
    }
    assert(d.take(i - start) =~= d);
    Some(acc)
}

pub fn parse_u32(s: &[char]) -> (r: Option<u32>)
    ensures
        r == parse_u32_spec(s@),
{
    match parse_unsigned_exec(s, 0xffff_ffff) {
        Some(v) => Some(v as u32),
        None => None,
    }
}

pub fn parse_u64(s: &[char]) -> (r: Option<u64>)
    ensures
        r == parse_u64_spec(s@),
{
    parse_unsigned_exec(s, 0xffff_ffff_ffff_ffff)
}

/// Appends the decimal rendering of `n` to `out`.
pub fn push_decimal(out: &mut Vec<char>, n: u64)
    ensures
        final(out)@ == old(out)@ + decimal(n as nat),
    decreases n,
{
    if n >= 10 {
        push_decimal(out, n / 10);
    }
    let d = (n % 10) as u32;
    let c = char_from_digit(d);
    out.push(c);
    assert(out@ =~= old(out)@ + decimal(n as nat));
}

/// The character of one decimal or hexadecimal digit value.
pub fn char_from_digit(d: u32) -> (c: char)
    requires
        d < 16,
    ensures
        c == hex_digit(d as nat),
        d < 10 ==> c == digit_char(d as nat),
{
    let table: [char; 16] = [
        '0',
        '1',
        '2',
        '3',
        '4',
        '5',
        '6',
        '7',
        '8',
        '9',
        'a',
        'b',
        'c',
        'd',
        'e',
        'f',
    ];
    let c = table[d as usize];
    assert(c == hex_digit(d as nat)) by {
        assert(table@[d as int] == c);
    }
    c
}

/// Appends the last `width` lower-case hexadecimal digits of `n` to `out`.
pub fn push_hex_fixed(out: &mut Vec<char>, n: u64, width: u32)
    ensures
        final(out)@ == old(out)@ + hex_fixed(n as nat, width as nat),
    decreases width,
{
    if width > 0 {
        push_hex_fixed(out, n / 16, width - 1);
        let c = char_from_digit((n % 16) as u32);
        out.push(c);
        assert(out@ =~= old(out)@ + hex_fixed(n as nat, width as nat));
    } else {
        assert(out@ =~= old(out)@ + hex_fixed(n as nat, width as nat));
    }
}

/// Lower-case hexadecimal rendering of bytes, two digits each.
pub fn hex_of_bytes(b: &[u8]) -> (r: Vec<char>)
    ensures
        r@ == bytes_hex(b@),
{
    let mut r: Vec<char> = Vec::new();
    let mut i: usize = 0;
    while i < b.len()
        invariant
            0 <= i <= b@.len(),
            r@ == bytes_hex(b@.take(i as int)),
        decreases b@.len() - i,
    {
        push_hex_fixed(&mut r, b[i] as u64, 2);
        i += 1;
        assert(b@.take(i as int).drop_last() =~= b@.take(i - 1));
    }
    assert(b@.take(b@.len() as int) =~= b@);
    r
}

pub fn is_space_exec(c: char) -> (r: bool)
    ensures
        r == is_space(c),
{
    ('\u{9}' <= c && c <= '\u{d}') || c == ' ' || c == '\u{85}' || c == '\u{a0}' || c
        == '\u{1680}' || ('\u{2000}' <= c && c <= '\u{200a}') || c == '\u{2028}' || c
        == '\u{2029}' || c == '\u{202f}' || c == '\u{205f}' || c == '\u{3000}'
}

/// `str::trim` on characters.
pub fn trim_chars(s: &[char]) -> (r: Vec<char>)
    ensures
        r@ == trim(s@),
{
    let mut a: usize = 0;
    assert(s@.skip(0) =~= s@);
    while a < s.len() && is_space_exec(s[a])
        invariant
            0 <= a <= s@.len(),
            trim_start(s@) == trim_start(s@.skip(a as int)),
        decreases s@.len() - a,
    {
        assert(s@.skip(a as int).skip(1) =~= s@.skip(a + 1));
        a += 1;
    }
    let ghost t = s@.skip(a as int);
    assert(trim_start(s@) == t);
    let mut b: usize = s.len();
    while b > a && is_space_exec(s[b - 1])
        invariant
            a <= b <= s@.len(),
            t == s@.skip(a as int),
            trim_end(t) == trim_end(s@.subrange(a as int, b as int)),
        decreases b,
    {
        assert(s@.subrange(a as int, b as int).drop_last() =~= s@.subrange(a as int, b - 1));
        b -= 1;
    }
    assert(s@.subrange(a as int, b as int).len() == 0 || !is_space(
        s@.subrange(a as int, b as int).last(),
    ));
    assert(trim_end(s@.subrange(a as int, b as int)) == s@.subrange(a as int, b as int));
    assert(t =~= s@.subrange(a as int, s@.len() as int));
    slice_chars(s, a, b)
}

/// `str::lines` on characters.
pub fn split_lines(s: &[char]) -> (r: Vec<Vec<char>>)
    ensures
        r@.len() == lines(s@).len(),
        forall|i: int| 0 <= i < r@.len() ==> (#[trigger] r@[i])@ == lines(s@)[i],
{
    let mut r: Vec<Vec<char>> = Vec::new();
    let mut start: usize = 0;
    let ghost done: Seq<Seq<char>> = Seq::empty();
    assert(s@.skip(0) =~= s@);
    assert(done + lines(s@) =~= lines(s@));
    while start < s.len()
        invariant
            0 <= start <= s@.len(),
            r@.len() == done.len(),
            forall|i: int| 0 <= i < r@.len() ==> (#[trigger] r@[i])@ == done[i],
            lines(s@) == done + lines(s@.skip(start as int)),
        decreases s@.len() - start,
    {
        let ghost rest = s@.skip(start as int);
        let mut j = start;
        while j < s.len() && s[j] != '\n'
            invariant
                start <= j <= s@.len(),
                forall|k: int| start <= k < j ==> s@[k] != '\n',
            decreases s@.len() - j,
        {
            j += 1;
        }
        proof {
            assert forall|k: int| 0 <= k < j - start implies rest[k] != '\n' by {
                assert(rest[k] == s@[start + k]);
            }
            if j < s.len() {
                assert(rest[j - start] == s@[j as int]);
            }
            lemma_find_char(rest, '\n', j - start);
        }
        if j == s.len() {
            let line = slice_chars(s, start, j);
            assert(line@ =~= rest);
            r.push(line);
            proof {
                done = done.push(rest);
                assert(s@.skip(j as int).len() == 0);
                assert(lines(s@.skip(j as int)) =~= Seq::<Seq<char>>::empty());
                assert(lines(s@) =~= done + lines(s@.skip(j as int)));
            }
            start = j;
        } else {
            let mut end = j;
            if end > start && s[end - 1] == '\r' {
                end = end - 1;
            }
            let line = slice_chars(s, start, end);
            assert(line@ =~= strip_cr(rest.take(j - start)));
            r.push(line);
            proof {
                assert(rest.skip(j - start + 1) =~= s@.skip(j + 1));
                assert(lines(rest) =~= seq![strip_cr(rest.take(j - start))] + lines(s@.skip(j + 1)));
                done = done.push(strip_cr(rest.take(j - start)));
                assert(lines(s@) =~= done + lines(s@.skip(j + 1)));
            }
            start = j + 1;
        }
    }
    assert(s@.skip(start as int).len() == 0);
    assert(lines(s@.skip(start as int)) =~= Seq::<Seq<char>>::empty());
    assert(lines(s@) =~= done);
    r
}

/// `path` joined with `comp` as `Path::join` does on Unix.
pub fn join_path(path: &[char], comp: &[char]) -> (r: Vec<char>)
    ensures
        r@ == path_join(path@, comp@),
{
    if comp.len() > 0 && comp[0] == '/' {
        slice_chars_all(comp)
    } else if path.len() == 0 || path[path.len() - 1] == '/' {
        concat(path, comp)
    } else {
        let mut r = slice_chars_all(path);
        r.push('/');
        append_chars(&mut r, comp);
        r
    }
}

/// A copy of `s`.
pub fn slice_chars_all(s: &[char]) -> (r: Vec<char>)
    ensures
        r@ == s@,
{
    let r = slice_chars(s, 0, s.len());
    assert(r@ =~= s@);
    r
}

/// `s` with every non-overlapping occurrence of `p` removed, left to right.
pub fn remove_all_exec(s: &[char], p: &[char]) -> (r: Vec<char>)
    ensures
        r@ == remove_all(s@, p@),
{
    let mut r: Vec<char> = Vec::new();
    if p.len() == 0 {
        return slice_chars_all(s);
    }
    let mut i: usize = 0;
    assert(s@.skip(0) =~= s@);
    assert(r@ + remove_all(s@, p@) =~= remove_all(s@, p@));
    while i < s.len()
        invariant
            p@.len() > 0,
            0 <= i <= s@.len(),
            remove_all(s@, p@) == r@ + remove_all(s@.skip(i as int), p@),
        decreases s@.len() - i,
    {
        let ghost rest = s@.skip(i as int);
        if matches_at(s, i, p) {
            assert(rest.skip(p@.len() as int) =~= s@.skip(i + p@.len()));
            i = i + p.len();
        } else {
            let ghost before = r@;
            r.push(s[i]);
            assert(rest.skip(1) =~= s@.skip(i + 1));
            assert(rest[0] == s@[i as int]);
            assert(r@ =~= before + seq![s@[i as int]]);
            assert(before + (seq![s@[i as int]] + remove_all(s@.skip(i + 1), p@)) =~= r@ + remove_all(s@.skip(i + 1), p@));
            i = i + 1;
        }
    }
    assert(remove_all(s@.skip(i as int), p@) =~= Seq::<char>::empty());
    assert(r@ + Seq::<char>::empty() =~= r@);
    r
}

} // verus!

verus! {

/// `str::split(c)`: the pieces of `s` between occurrences of `c`, empty pieces
/// included; there is always at least one piece.
pub open spec fn split_char(s: Seq<char>, c: char) -> Seq<Seq<char>>
    decreases s.len(),
{
    let i = find_char(s, c);
    if i < 0 {
        seq![s]
    } else {
        proof {
            lemma_find_char_ensures(s, c);
        }
        seq![s.take(i)] + split_char(s.skip(i + 1), c)
    }
}

/// `str::split(c)` on characters.
pub fn split_on(s: &[char], c: char) -> (r: Vec<Vec<char>>)
    ensures
        r@.len() == split_char(s@, c).len(),
        forall|i: int| 0 <= i < r@.len() ==> (#[trigger] r@[i])@ == split_char(s@, c)[i],
{
    let mut r: Vec<Vec<char>> = Vec::new();
    let mut start: usize = 0;
    let ghost done: Seq<Seq<char>> = Seq::empty();
    assert(s@.skip(0) =~= s@);
    assert(done + split_char(s@, c) =~= split_char(s@, c));
    loop
        invariant
            0 <= start <= s@.len(),
            r@.len() == done.len(),
            forall|i: int| 0 <= i < r@.len() ==> (#[trigger] r@[i])@ == done[i],
            split_char(s@, c) == done + split_char(s@.skip(start as int), c),
        decreases s@.len() - start,
    {
        let ghost rest = s@.skip(start as int);
        let mut j = start;
        while j < s.len() && s[j] != c
            invariant
                start <= j <= s@.len(),
                forall|k: int| start <= k < j ==> s@[k] != c,
            decreases s@.len() - j,
        {
            j += 1;
        }
        proof {
            assert forall|k: int| 0 <= k < j - start implies rest[k] != c by {
                assert(rest[k] == s@[start + k]);
            }
            if j < s.len() {
                assert(rest[j - start] == s@[j as int]);
            }
            lemma_find_char(rest, c, j - start);
        }
        let piece = slice_chars(s, start, j);
        r.push(piece);
        if j == s.len() {
            proof {
                assert(piece@ =~= rest);
                done = done.push(rest);
                assert(split_char(s@, c) =~= done);
            }
            return r;
        }
        proof {
            assert(piece@ =~= rest.take(j - start));
            assert(rest.skip(j - start + 1) =~= s@.skip(j + 1));
            done = done.push(rest.take(j - start));
            assert(split_char(s@, c) =~= done + split_char(s@.skip(j + 1), c));
        }
        start = j + 1;
    }
}

pub open spec fn ascii_lower(c: char) -> char {
    if 'A' <= c && c <= 'Z' {
        ((c as int) + 32) as char
    } else {
        c
    }
}

/// `s` equals the lower-case word `w` when ASCII letters are compared without case.
pub open spec fn eq_ignore_case(s: Seq<char>, w: Seq<char>) -> bool {
    s.len() == w.len() && forall|i: int| 0 <= i < s.len() ==> ascii_lower(#[trigger] s[i]) == w[i]
}

/// `s` without one leading `+` or `-`.
pub open spec fn drop_sign(s: Seq<char>) -> Seq<char> {
    if s.len() > 0 && (s[0] == '+' || s[0] == '-') {
        s.skip(1)
    } else {
        s
    }
}

pub open spec fn is_exp_mark(c: char) -> bool {
    c == 'e' || c == 'E'
}

/// Index of the first `e` or `E`, or -1.
pub open spec fn find_exp(s: Seq<char>) -> int
    decreases s.len(),
{
    if s.len() == 0 {
        -1
    } else if is_exp_mark(s[0]) {
        0
    } else {
        let r = find_exp(s.skip(1));
        if r < 0 {
            -1
        } else {
            r + 1
        }
    }
}

/// Digits with at most one `.`, and at least one digit.
pub open spec fn mantissa_ok(m: Seq<char>) -> bool {
    let d = find_char(m, '.');
    if d < 0 {
        m.len() > 0 && all_digits(m)
    } else {
        let a = m.take(d);
        let b = m.skip(d + 1);
        all_digits(a) && all_digits(b) && (a.len() > 0 || b.len() > 0)
    }
}

/// An optional sign, then one or more digits.
pub open spec fn exponent_ok(x: Seq<char>) -> bool {
    let y = drop_sign(x);
    y.len() > 0 && all_digits(y)
}

/// Whether `str::parse::<f32>` accepts `s`. Its documentation gives the
/// grammar, compared without ASCII case: an optional sign, then `inf`,
/// `infinity`, `nan`, or a number made of digits with an optional `.` (at
/// least one digit on some side of it) and an optional exponent `e`, sign,
/// digits. Nothing else, white space included, is accepted.
pub open spec fn float_text(s: Seq<char>) -> bool {
    let b = drop_sign(s);
    let e = find_exp(b);
    ||| eq_ignore_case(b, "inf"@)
    ||| eq_ignore_case(b, "infinity"@)
    ||| eq_ignore_case(b, "nan"@)
    ||| (if e < 0 {
        mantissa_ok(b)
    } else {
        mantissa_ok(b.take(e)) && exponent_ok(b.skip(e + 1))
    })
}

pub fn all_digits_exec(s: &[char]) -> (r: bool)
    ensures
        r == all_digits(s@),
{
    let mut i: usize = 0;
    while i < s.len()
        invariant
            0 <= i <= s@.len(),
            forall|k: int| 0 <= k < i ==> is_digit(#[trigger] s@[k]),
        decreases s@.len() - i,
    {
        if !('0' <= s[i] && s[i] <= '9') {
            assert(!is_digit(s@[i as int]));
            return false;
        }
        i += 1;
    }
    true
}

pub fn eq_ignore_case_exec(s: &[char], w: &[char]) -> (r: bool)
    ensures
        r == eq_ignore_case(s@, w@),
{
    if s.len() != w.len() {
        return false;
    }
    let mut i: usize = 0;
    while i < s.len()
        invariant
            s@.len() == w@.len(),
            0 <= i <= s@.len(),
            forall|k: int| 0 <= k < i ==> ascii_lower(#[trigger] s@[k]) == w@[k],
        decreases s@.len() - i,
    {
        let c = s[i];
        let l = if 'A' <= c && c <= 'Z' {
            ((c as u32) + 32) as u8 as char
        } else {
            c
        };
        assert(l == ascii_lower(c)) by {
            if 'A' <= c && c <= 'Z' {
                assert(((c as u32) + 32) as u8 as char == ((c as int) + 32) as char);
            }
        }
        if l != w[i] {
            return false;
        }
        i += 1;
    }
    true
}

fn mantissa_ok_exec(m: &[char]) -> (r: bool)
    ensures
        r == mantissa_ok(m@),
{
    match find(m, '.') {
        None => m.len() > 0 && all_digits_exec(m),
        Some(d) => {
            proof {
                lemma_find_char_ensures(m@, '.');
            }
            assert(m@.len() == m.len());
            let a = slice_chars(m, 0, d);
            let b = slice_chars(m, d + 1, m.len());
            assert(a@ =~= m@.take(d as int));
            assert(b@ =~= m@.skip(d + 1));
            all_digits_exec(&a) && all_digits_exec(&b) && (a.len() > 0 || b.len() > 0)
        },
    }
}

fn exponent_ok_exec(x: &[char]) -> (r: bool)
    ensures
        r == exponent_ok(x@),
{
    let y = if x.len() > 0 && (x[0] == '+' || x[0] == '-') {
        slice_chars(x, 1, x.len())
    } else {
        slice_chars_all(x)
    };
    assert(y@ =~= drop_sign(x@));
    y.len() > 0 && all_digits_exec(&y)
}

/// Whether `str::parse::<f32>` accepts `s` (see `float_text`).
pub fn is_float_text(s: &[char]) -> (r: bool)
    ensures
        r == float_text(s@),
{
    let b = if s.len() > 0 && (s[0] == '+' || s[0] == '-') {
        slice_chars(s, 1, s.len())
    } else {
        slice_chars_all(s)
    };
    assert(b@ =~= drop_sign(s@));
    let inf = chars_of("inf");
    let infinity = chars_of("infinity");
    let nan = chars_of("nan");
    if eq_ignore_case_exec(&b, &inf) || eq_ignore_case_exec(&b, &infinity) || eq_ignore_case_exec(
        &b,
        &nan,
    ) {
        return true;
    }
    let mut i: usize = 0;
    assert(b@.skip(0) =~= b@);
    while i < b.len() && !(b[i] == 'e' || b[i] == 'E')
        invariant
            0 <= i <= b@.len(),
            find_exp(b@) == (if find_exp(b@.skip(i as int)) < 0 {
                -1
            } else {
                find_exp(b@.skip(i as int)) + i
            }),
        decreases b@.len() - i,
    {
        assert(b@.skip(i as int)[0] == b@[i as int]);
        assert(b@.skip(i as int).skip(1) =~= b@.skip(i + 1));
        i += 1;
    }
    if i == b.len() {
        assert(b@.skip(i as int).len() == 0);
        mantissa_ok_exec(&b)
    } else {
        assert(b@.skip(i as int)[0] == b@[i as int]);
        let m = slice_chars(&b, 0, i);
        let x = slice_chars(&b, i + 1, b.len());
        assert(m@ =~= b@.take(i as int));
        assert(x@ =~= b@.skip(i + 1));
        mantissa_ok_exec(&m) && exponent_ok_exec(&x)
    }
}

} // verus!

verus! {

/// `s` with every non-overlapping occurrence of `p` (found left to right)
/// replaced by `r`, as `str::replace(p, r)` does.
pub open spec fn replace_all(s: Seq<char>, p: Seq<char>, r: Seq<char>) -> Seq<char>
    decreases s.len(),
{
    if s.len() == 0 || p.len() == 0 {
        s
    } else if has_prefix(s, p) {
        r + replace_all(s.skip(p.len() as int), p, r)
    } else {
        seq![s[0]] + replace_all(s.skip(1), p, r)
    }
}

/// `s` with every non-overlapping occurrence of `p` replaced by `r`.
pub fn replace_all_exec(s: &[char], p: &[char], r: &[char]) -> (out: Vec<char>)
    requires
        p@.len() > 0,
    ensures
        out@ == replace_all(s@, p@, r@),
{
    let mut out: Vec<char> = Vec::new();
    let mut i: usize = 0;
    assert(s@.skip(0) =~= s@);
    assert(out@ + replace_all(s@, p@, r@) =~= replace_all(s@, p@, r@));
    while i < s.len()
        invariant
            p@.len() > 0,
            0 <= i <= s@.len(),
            replace_all(s@, p@, r@) == out@ + replace_all(s@.skip(i as int), p@, r@),
        decreases s@.len() - i,
    {
        let ghost rest = s@.skip(i as int);
        let ghost before = out@;
        if matches_at(s, i, p) {
            assert(rest.skip(p@.len() as int) =~= s@.skip(i + p@.len()));
            append_chars(&mut out, r);
            assert(before + (r@ + replace_all(s@.skip(i + p@.len()), p@, r@)) =~= out@ + replace_all(
                s@.skip(i + p@.len()),
                p@,
                r@,
            ));
            i = i + p.len();
        } else {
            out.push(s[i]);
            assert(rest.skip(1) =~= s@.skip(i + 1));
            assert(rest[0] == s@[i as int]);
            assert(before + (seq![s@[i as int]] + replace_all(s@.skip(i + 1), p@, r@)) =~= out@
                + replace_all(s@.skip(i + 1), p@, r@));
            i = i + 1;
        }
    }
    assert(replace_all(s@.skip(i as int), p@, r@) =~= Seq::<char>::empty());
    assert(out@ + Seq::<char>::empty() =~= out@);
    out
}

} // verus!
