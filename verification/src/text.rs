//! Text: numbers in decimal and hexadecimal, white space, lines.
use vstd::prelude::*;

verus! {

// ── Characters and strings ───────────────────────────────────────────────────

/// White space: the characters with Unicode's White_Space property.
pub open spec fn white_space(c: char) -> bool {
    let n = c as u32;
    ||| 0x09 <= n <= 0x0d
    ||| n == 0x20
    ||| n == 0x85
    ||| n == 0xa0
    ||| n == 0x1680
    ||| 0x2000 <= n <= 0x200a
    ||| n == 0x2028
    ||| n == 0x2029
    ||| n == 0x202f
    ||| n == 0x205f
    ||| n == 0x3000
}

/// True for white space.
pub fn is_white_space(c: char) -> (b: bool)
    ensures
        b == white_space(c),
{
    let n: u32 = c as u32;
    (0x09 <= n && n <= 0x0d) || n == 0x20 || n == 0x85 || n == 0xa0 || n == 0x1680 || (0x2000 <= n
        && n <= 0x200a) || n == 0x2028 || n == 0x2029 || n == 0x202f || n == 0x205f || n == 0x3000
}

/// `String::push`: append one character.
#[verifier::external_body]
pub(crate) fn push_char(s: &mut String, c: char)
    ensures
        final(s)@ == old(s)@.push(c),
{
    s.push(c)
}

/// The characters of a text.
pub fn chars_of(s: &str) -> (v: Vec<char>)
    ensures
        v@ == s@,
{
    let mut v: Vec<char> = Vec::new();
    for c in it: s.chars()
        invariant
            v@ == it.seq().take(it.index() as int),
            it.seq() == s@,
    {
        v.push(c);
        assert(v@ =~= it.seq().take(it.index() + 1));
    }
    assert(v@ =~= s@);
    v
}

/// The text of some characters.
pub fn string_of(v: &[char]) -> (s: String)
    ensures
        s@ == v@,
{
    let mut s = String::new();
    let mut i: usize = 0;
    while i < v.len()
        invariant
            i <= v@.len(),
            s@ == v@.take(i as int),
        decreases v@.len() - i,
    {
        push_char(&mut s, v[i]);
        i = i + 1;
        assert(s@ =~= v@.take(i as int));
    }
    assert(v@.take(i as int) =~= v@);
    s
}

/// True if two texts are the same.
pub fn same_text(a: &str, b: &str) -> (r: bool)
    ensures
        r == (a@ == b@),
{
    let x = chars_of(a);
    let y = chars_of(b);
    if x.len() != y.len() {
        return false;
    }
    let mut i: usize = 0;
    while i < x.len()
        invariant
            x@ == a@,
            y@ == b@,
            x@.len() == y@.len(),
            i <= x@.len(),
            forall|j: int| 0 <= j < i ==> x@[j] == y@[j],
        decreases x@.len() - i,
    {
        if x[i] != y[i] {
            return false;
        }
        i = i + 1;
    }
    assert(x@ =~= y@);
    true
}

// ── White space ──────────────────────────────────────────────────────────────

/// `s` without the white space at its start.
pub open spec fn trim_start(s: Seq<char>) -> Seq<char>
    decreases s.len(),
{
    if s.len() > 0 && white_space(s[0]) {
        trim_start(s.skip(1))
    } else {
        s
    }
}

/// `s` without the white space at its end.
pub open spec fn trim_end(s: Seq<char>) -> Seq<char>
    decreases s.len(),
{
    if s.len() > 0 && white_space(s.last()) {
        trim_end(s.drop_last())
    } else {
        s
    }
}

/// `s` without the white space around it.
pub open spec fn trim(s: Seq<char>) -> Seq<char> {
    trim_end(trim_start(s))
}

/// True if a text is empty or white space throughout.
pub open spec fn blank(s: Seq<char>) -> bool {
    forall|i: int| 0 <= i < s.len() ==> white_space(#[trigger] s[i])
}

/// A text has nothing but white space exactly if trimming leaves nothing.
pub proof fn law_blank_trims_to_nothing(s: Seq<char>)
    ensures
        blank(s) <==> trim(s).len() == 0,
    decreases s.len(),
{
    lemma_trim_start_blank(s);
    let t = trim_start(s);
    if t.len() > 0 {
        lemma_trim_end_keeps_front(t);
    }
}

proof fn lemma_trim_start_blank(s: Seq<char>)
    ensures
        blank(s) <==> trim_start(s).len() == 0,
        trim_start(s).len() > 0 ==> !white_space(trim_start(s)[0]),
    decreases s.len(),
{
    if s.len() > 0 {
        if white_space(s[0]) {
            lemma_trim_start_blank(s.skip(1));
            if blank(s) {
                assert forall|i: int| 0 <= i < s.skip(1).len() implies white_space(
                    #[trigger] s.skip(1)[i],
                ) by {
                    assert(white_space(s[i + 1]));
                }
            }
            if blank(s.skip(1)) {
                assert forall|i: int| 0 <= i < s.len() implies white_space(#[trigger] s[i]) by {
                    if i > 0 {
                        assert(s.skip(1)[i - 1] == s[i]);
                    }
                }
            }
        } else {
            assert(!white_space(s[0]));
        }
    }
}

proof fn lemma_trim_end_keeps_front(s: Seq<char>)
    requires
        s.len() > 0,
        !white_space(s[0]),
    ensures
        trim_end(s).len() > 0,
    decreases s.len(),
{
    if white_space(s.last()) {
        lemma_trim_end_keeps_front(s.drop_last());
    }
}

/// True if a text is empty or white space throughout.
pub fn is_blank(s: &str) -> (b: bool)
    ensures
        b == blank(s@),
{
    let v = chars_of(s);
    let mut i: usize = 0;
    while i < v.len()
        invariant
            v@ == s@,
            i <= v@.len(),
            forall|j: int| 0 <= j < i ==> white_space(#[trigger] v@[j]),
        decreases v@.len() - i,
    {
        if !is_white_space(v[i]) {
            return false;
        }
        i = i + 1;
    }
    true
}

/// The characters without the white space at their start.
pub fn trimmed_start(v: &[char]) -> (r: Vec<char>)
    ensures
        r@ == trim_start(v@),
{
    let mut i: usize = 0;
    assert(v@.skip(0) =~= v@);
    while i < v.len() && is_white_space(v[i])
        invariant
            i <= v@.len(),
            trim_start(v@.skip(i as int)) == trim_start(v@),
        decreases v@.len() - i,
    {
        assert(v@.skip(i as int).skip(1) =~= v@.skip(i + 1));
        i = i + 1;
    }
    vstd::slice::slice_to_vec(vstd::slice::slice_subrange(v, i, v.len()))
}

/// The characters without the white space around them.
pub fn trimmed(v: &[char]) -> (r: Vec<char>)
    ensures
        r@ == trim(v@),
{
    let mut r = trimmed_start(v);
    while r.len() > 0 && is_white_space(r[r.len() - 1])
        invariant
            trim_end(r@) == trim(v@),
        decreases r@.len(),
    {
        let n: usize = r.len();
        r.truncate(n - 1);
    }
    r
}

/// Where the first white space is, the length where there is none.
pub open spec fn white_at(s: Seq<char>) -> nat
    decreases s.len(),
{
    if s.len() == 0 || white_space(s[0]) {
        0
    } else {
        1 + white_at(s.skip(1))
    }
}

/// The words of a text, each with the white space character that ends it.
pub open spec fn words(s: Seq<char>) -> Seq<Seq<char>>
    decreases s.len(),
{
    if s.len() == 0 {
        Seq::empty()
    } else if white_at(s) >= s.len() {
        seq![s]
    } else {
        seq![s.take(white_at(s) as int + 1)] + words(s.skip(white_at(s) as int + 1))
    }
}

/// Where the first line feed is, the length where there is none.
pub open spec fn newline_at(s: Seq<char>) -> nat
    decreases s.len(),
{
    if s.len() == 0 || s[0] == '\n' {
        0
    } else {
        1 + newline_at(s.skip(1))
    }
}

/// A line without the carriage return in front of its line feed.
pub open spec fn without_return(s: Seq<char>) -> Seq<char> {
    if s.len() > 0 && s.last() == '\r' {
        s.drop_last()
    } else {
        s
    }
}

/// The lines of a text, without their ends. The last line needs no end.
pub open spec fn lines(s: Seq<char>) -> Seq<Seq<char>>
    decreases s.len(),
{
    if s.len() == 0 {
        Seq::empty()
    } else if newline_at(s) >= s.len() {
        seq![s]
    } else {
        seq![without_return(s.take(newline_at(s) as int))] + lines(
            s.skip(newline_at(s) as int + 1),
        )
    }
}

/// The contents of a list of texts.
pub open spec fn contents(v: Seq<Vec<char>>) -> Seq<Seq<char>> {
    Seq::new(v.len(), |i: int| v[i]@)
}

fn find_newline(v: &[char], from: usize) -> (i: usize)
    requires
        from <= v@.len(),
    ensures
        i == from + newline_at(v@.skip(from as int)),
        from <= i <= v@.len(),
        i < v@.len() ==> v@[i as int] == '\n',
{
    let mut i: usize = from;
    while i < v.len() && v[i] != '\n'
        invariant
            from <= i <= v@.len(),
            from + newline_at(v@.skip(from as int)) == i + newline_at(v@.skip(i as int)),
        decreases v@.len() - i,
    {
        assert(v@.skip(i as int).skip(1) =~= v@.skip(i + 1));
        i = i + 1;
    }
    i
}

fn find_white(v: &[char], from: usize) -> (i: usize)
    requires
        from <= v@.len(),
    ensures
        i == from + white_at(v@.skip(from as int)),
        from <= i <= v@.len(),
{
    let mut i: usize = from;
    while i < v.len() && !is_white_space(v[i])
        invariant
            from <= i <= v@.len(),
            from + white_at(v@.skip(from as int)) == i + white_at(v@.skip(i as int)),
        decreases v@.len() - i,
    {
        assert(v@.skip(i as int).skip(1) =~= v@.skip(i + 1));
        i = i + 1;
    }
    i
}

/// The lines of a text.
pub fn lines_of(v: &[char]) -> (out: Vec<Vec<char>>)
    ensures
        contents(out@) == lines(v@),
{
    let mut out: Vec<Vec<char>> = Vec::new();
    let mut at: usize = 0;
    proof {
        assert(v@.skip(0) =~= v@);
        assert(contents(out@) + lines(v@) =~= lines(v@));
    }
    while at < v.len()
        invariant
            at <= v@.len(),
            contents(out@) + lines(v@.skip(at as int)) == lines(v@),
        decreases v@.len() - at,
    {
        let ghost rest = v@.skip(at as int);
        let ghost done = contents(out@);
        let end: usize = find_newline(v, at);
        let mut line = vstd::slice::slice_to_vec(vstd::slice::slice_subrange(v, at, end));
        if end < v.len() {
            assert(line@ =~= rest.take(end - at));
            if line.len() > 0 && line[line.len() - 1] == '\r' {
                let n: usize = line.len();
                line.truncate(n - 1);
                assert(line@ =~= rest.take(end - at).drop_last());
            }
            out.push(line);
            proof {
                assert(contents(out@) =~= done.push(line@));
                assert(rest.skip(end - at + 1) =~= v@.skip(end + 1));
                assert(done.push(line@) + lines(v@.skip(end + 1)) =~= done + (seq![line@] + lines(
                    v@.skip(end + 1),
                )));
            }
            at = end + 1;
        } else {
            out.push(line);
            proof {
                assert(line@ =~= rest);
                assert(contents(out@) =~= done.push(line@));
                assert(v@.skip(end as int).len() == 0);
                assert(done.push(line@) + lines(v@.skip(end as int)) =~= done + seq![rest]);
            }
            at = end;
        }
    }
    assert(v@.skip(at as int).len() == 0);
    assert(contents(out@) + Seq::<Seq<char>>::empty() =~= contents(out@));
    out
}

/// The words of a text, each with the white space character that ends it.
pub fn words_of(v: &[char]) -> (out: Vec<Vec<char>>)
    ensures
        contents(out@) == words(v@),
{
    let mut out: Vec<Vec<char>> = Vec::new();
    let mut at: usize = 0;
    proof {
        assert(v@.skip(0) =~= v@);
        assert(contents(out@) + words(v@) =~= words(v@));
    }
    while at < v.len()
        invariant
            at <= v@.len(),
            contents(out@) + words(v@.skip(at as int)) == words(v@),
        decreases v@.len() - at,
    {
        let ghost rest = v@.skip(at as int);
        let ghost done = contents(out@);
        let end: usize = find_white(v, at);
        let stop: usize = if end < v.len() {
            end + 1
        } else {
            end
        };
        let word = vstd::slice::slice_to_vec(vstd::slice::slice_subrange(v, at, stop));
        out.push(word);
        proof {
            assert(contents(out@) =~= done.push(word@));
            if end < v@.len() {
                assert(word@ =~= rest.take(end - at + 1));
                assert(rest.skip(end - at + 1) =~= v@.skip(stop as int));
                assert(done.push(word@) + words(v@.skip(stop as int)) =~= done + (seq![word@]
                    + words(v@.skip(stop as int))));
            } else {
                assert(word@ =~= rest);
                assert(v@.skip(stop as int).len() == 0);
                assert(done.push(word@) + words(v@.skip(stop as int)) =~= done + seq![rest]);
            }
        }
        at = stop;
    }
    assert(v@.skip(at as int).len() == 0);
    assert(contents(out@) + Seq::<Seq<char>>::empty() =~= contents(out@));
    out
}

// ── Numbers ──────────────────────────────────────────────────────────────────

/// The digit for a value below 16.
pub open spec fn digit(n: int) -> char {
    seq!['0', '1', '2', '3', '4', '5', '6', '7', '8', '9', 'a', 'b', 'c', 'd', 'e', 'f'][n]
}

/// `n` in base `base`, without leading zeros.
pub open spec fn in_base(n: nat, base: nat) -> Seq<char>
    decreases n,
{
    if base < 2 || n < base {
        seq![digit(n as int)]
    } else {
        proof {
            assert(n / base < n) by (nonlinear_arith)
                requires
                    base >= 2,
                    n >= base,
            ;
        }
        in_base(n / base, base).push(digit((n % base) as int))
    }
}

/// `n` in decimal.
pub open spec fn decimal(n: nat) -> Seq<char> {
    in_base(n, 10)
}

fn digit_char(d: u64) -> (c: char)
    requires
        d < 16,
    ensures
        c == digit(d as int),
{
    match d {
        0 => '0',
        1 => '1',
        2 => '2',
        3 => '3',
        4 => '4',
        5 => '5',
        6 => '6',
        7 => '7',
        8 => '8',
        9 => '9',
        10 => 'a',
        11 => 'b',
        12 => 'c',
        13 => 'd',
        14 => 'e',
        _ => 'f',
    }
}

/// Append `n` in base 10 or 16.
fn push_in_base(s: &mut String, n: u64, base: u64)
    requires
        base == 10 || base == 16,
    ensures
        final(s)@ == old(s)@ + in_base(n as nat, base as nat),
    decreases n,
{
    if n < base {
        push_char(s, digit_char(n));
        assert(s@ =~= old(s)@ + in_base(n as nat, base as nat));
    } else {
        push_in_base(s, n / base, base);
        push_char(s, digit_char(n % base));
        assert(s@ =~= old(s)@ + in_base(n as nat, base as nat));
    }
}

/// Append `n` in decimal.
pub fn push_decimal(s: &mut String, n: u64)
    ensures
        final(s)@ == old(s)@ + decimal(n as nat),
{
    push_in_base(s, n, 10)
}

/// Append `n` in hexadecimal.
pub fn push_hex(s: &mut String, n: u64)
    ensures
        final(s)@ == old(s)@ + in_base(n as nat, 16),
{
    push_in_base(s, n, 16)
}

/// A text with a number in it.
pub fn numbered(prefix: &str, n: u64, suffix: &str) -> (s: String)
    ensures
        s@ == prefix@ + decimal(n as nat) + suffix@,
{
    let mut s = String::new();
    s.append(prefix);
    push_decimal(&mut s, n);
    s.append(suffix);
    assert(s@ =~= prefix@ + decimal(n as nat) + suffix@);
    s
}

/// The six hexadecimal digits of a 24-bit number.
pub open spec fn six_digits(n: nat) -> Seq<char> {
    seq![
        digit((n / 0x10_0000 % 16) as int),
        digit((n / 0x1_0000 % 16) as int),
        digit((n / 0x1000 % 16) as int),
        digit((n / 0x100 % 16) as int),
        digit((n / 0x10 % 16) as int),
        digit((n % 16) as int),
    ]
}

/// Append the six hexadecimal digits of a 24-bit number.
pub fn push_six_digits(s: &mut String, n: u64)
    ensures
        final(s)@ == old(s)@ + six_digits(n as nat),
{
    push_char(s, digit_char(n / 0x10_0000 % 16));
    push_char(s, digit_char(n / 0x1_0000 % 16));
    push_char(s, digit_char(n / 0x1000 % 16));
    push_char(s, digit_char(n / 0x100 % 16));
    push_char(s, digit_char(n / 0x10 % 16));
    push_char(s, digit_char(n % 16));
    assert(s@ =~= old(s)@ + six_digits(n as nat));
}

/// A number is determined by its digits.
pub proof fn law_digits_are_unique(a: nat, b: nat, base: nat)
    requires
        base == 10 || base == 16,
        in_base(a, base) == in_base(b, base),
    ensures
        a == b,
    decreases a,
{
    lemma_has_digits(a, base);
    lemma_has_digits(b, base);
    let x = in_base(a, base);
    assert(x.last() == digit((a % base) as int)) by {
        if a < base {
            assert(a % base == a) by (nonlinear_arith)
                requires
                    a < base,
            ;
        }
    }
    assert(x.last() == digit((b % base) as int)) by {
        if b < base {
            assert(b % base == b) by (nonlinear_arith)
                requires
                    b < base,
            ;
        }
    }
    if a >= base && b >= base {
        assert(x.drop_last() =~= in_base(a / base, base));
        assert(x.drop_last() =~= in_base(b / base, base));
        assert(a / base < a) by (nonlinear_arith)
            requires
                base >= 2,
                a >= base,
        ;
        law_digits_are_unique(a / base, b / base, base);
        vstd::arithmetic::div_mod::lemma_fundamental_div_mod(a as int, base as int);
        vstd::arithmetic::div_mod::lemma_fundamental_div_mod(b as int, base as int);
    } else if a >= base {
        lemma_has_digits(a / base, base);
        assert(x.len() == in_base(a / base, base).len() + 1);
    } else if b >= base {
        lemma_has_digits(b / base, base);
        assert(x.len() == in_base(b / base, base).len() + 1);
    }
}

proof fn lemma_has_digits(n: nat, base: nat)
    ensures
        in_base(n, base).len() >= 1,
    decreases n,
{
    if base >= 2 && n >= base {
        assert(n / base < n) by (nonlinear_arith)
            requires
                base >= 2,
                n >= base,
        ;
        lemma_has_digits(n / base, base);
    }
}

/// The value of a digit.
pub open spec fn digit_value(c: char) -> int {
    if '0' <= c <= '9' {
        c as int - '0' as int
    } else {
        c as int - 'a' as int + 10
    }
}

/// The number that digits in base `base` stand for: each counts `base` times as much as the
/// one behind it.
pub open spec fn value_of(digits: Seq<char>, base: int) -> int
    decreases digits.len(),
{
    if digits.len() == 0 {
        0
    } else {
        value_of(digits.drop_last(), base) * base + digit_value(digits.last())
    }
}

proof fn lemma_digit_value(n: int)
    requires
        0 <= n < 16,
    ensures
        digit_value(digit(n)) == n,
{
}

/// The digits of a number stand for it, in decimal and in hexadecimal, without a zero in
/// front.
pub proof fn law_digits_have_the_value(n: nat, base: nat)
    requires
        base == 10 || base == 16,
    ensures
        value_of(in_base(n, base), base as int) == n,
        in_base(n, base).len() > 0,
        n > 0 ==> digit_value(in_base(n, base)[0]) != 0,
    decreases n,
{
    let s = in_base(n, base);
    if n < base {
        lemma_digit_value(n as int);
        assert(s.drop_last() =~= Seq::empty());
        reveal_with_fuel(value_of, 2);
    } else {
        assert(n / base < n && n / base > 0) by (nonlinear_arith)
            requires
                base >= 2,
                n >= base,
        ;
        law_digits_have_the_value(n / base, base);
        assert(0 <= n % base < base) by (nonlinear_arith)
            requires
                base >= 2,
        ;
        lemma_digit_value((n % base) as int);
        assert(s.drop_last() =~= in_base(n / base, base));
        vstd::arithmetic::div_mod::lemma_fundamental_div_mod(n as int, base as int);
        let (q, b) = ((n / base) as int, base as int);
        assert(b * q == q * b) by (nonlinear_arith);
    }
}

/// Trimming takes away white space in front and behind, and nothing else: what is left
/// neither starts nor ends with white space.
pub proof fn law_trimming_takes_only_white_space(s: Seq<char>) -> (r: (int, int))
    ensures
        0 <= r.0 <= r.1 <= s.len(),
        trim(s) == s.subrange(r.0, r.1),
        forall|i: int| 0 <= i < r.0 ==> white_space(#[trigger] s[i]),
        forall|i: int| r.1 <= i < s.len() ==> white_space(#[trigger] s[i]),
        trim(s).len() > 0 ==> !white_space(trim(s)[0]) && !white_space(trim(s).last()),
{
    let a = lemma_trim_start_skips(s);
    let b = lemma_trim_end_takes(s.skip(a));
    let r = (a, a + b);
    assert(s.skip(a).take(b) =~= s.subrange(a, a + b));
    assert forall|i: int| r.1 <= i < s.len() implies white_space(#[trigger] s[i]) by {
        assert(s.skip(a)[i - a] == s[i]);
    }
    r
}

proof fn lemma_trim_start_skips(s: Seq<char>) -> (k: int)
    ensures
        0 <= k <= s.len(),
        trim_start(s) == s.skip(k),
        forall|i: int| 0 <= i < k ==> white_space(#[trigger] s[i]),
        k < s.len() ==> !white_space(s[k]),
    decreases s.len(),
{
    if s.len() > 0 && white_space(s[0]) {
        let k = lemma_trim_start_skips(s.skip(1));
        assert(s.skip(1).skip(k) =~= s.skip(k + 1));
        assert forall|i: int| 0 <= i < k + 1 implies white_space(#[trigger] s[i]) by {
            if i > 0 {
                assert(s.skip(1)[i - 1] == s[i]);
            }
        }
        k + 1
    } else {
        assert(s.skip(0) =~= s);
        0
    }
}

proof fn lemma_trim_end_takes(s: Seq<char>) -> (k: int)
    ensures
        0 <= k <= s.len(),
        trim_end(s) == s.take(k),
        forall|i: int| k <= i < s.len() ==> white_space(#[trigger] s[i]),
        k > 0 ==> !white_space(s[k - 1]),
    decreases s.len(),
{
    if s.len() > 0 && white_space(s.last()) {
        let t = s.drop_last();
        let k = lemma_trim_end_takes(t);
        assert(t.take(k) =~= s.take(k));
        assert forall|i: int| k <= i < s.len() implies white_space(#[trigger] s[i]) by {
            if i < t.len() {
                assert(t[i] == s[i]);
            }
        }
        k
    } else {
        assert(s.take(s.len() as int) =~= s);
        s.len() as int
    }
}

/// Some texts one behind the other.
pub open spec fn run_together(parts: Seq<Seq<char>>) -> Seq<char>
    decreases parts.len(),
{
    if parts.len() == 0 {
        Seq::empty()
    } else {
        parts[0] + run_together(parts.skip(1))
    }
}

proof fn lemma_white_at(s: Seq<char>)
    ensures
        white_at(s) <= s.len(),
        white_at(s) < s.len() ==> white_space(s[white_at(s) as int]),
        forall|i: int| 0 <= i < white_at(s) ==> !white_space(#[trigger] s[i]),
    decreases s.len(),
{
    if s.len() > 0 && !white_space(s[0]) {
        lemma_white_at(s.skip(1));
        assert forall|i: int| 0 <= i < white_at(s) implies !white_space(#[trigger] s[i]) by {
            if i > 0 {
                assert(s.skip(1)[i - 1] == s[i]);
            }
        }
    }
}

/// The words of a text, one behind the other, are the text. A word has no white space before
/// its last character, and only the last word need not end in white space.
pub proof fn law_words_make_up_the_text(s: Seq<char>)
    ensures
        run_together(words(s)) == s,
        forall|k: int| 0 <= k < words(s).len() ==> (#[trigger] words(s)[k]).len() > 0,
        forall|k: int, i: int|
            0 <= k < words(s).len() && 0 <= i < words(s)[k].len() - 1 ==> !white_space(
                #[trigger] words(s)[k][i],
            ),
        forall|k: int|
            0 <= k < words(s).len() - 1 ==> white_space((#[trigger] words(s)[k]).last()),
    decreases s.len(),
{
    if s.len() > 0 {
        lemma_white_at(s);
        let w = words(s);
        if white_at(s) >= s.len() {
            assert(w.skip(1) =~= Seq::empty());
            reveal_with_fuel(run_together, 2);
            assert(w[0] + Seq::<char>::empty() =~= s);
        } else {
            let at = white_at(s) as int + 1;
            let rest = words(s.skip(at));
            law_words_make_up_the_text(s.skip(at));
            assert(w.skip(1) =~= rest);
            assert(w[0] == s.take(at));
            assert(s.take(at) + s.skip(at) =~= s);
            assert forall|k: int| 0 <= k < w.len() implies (#[trigger] w[k]).len() > 0 by {
                if k > 0 {
                    assert(w[k] == rest[k - 1]);
                }
            }
            assert forall|k: int, i: int|
                0 <= k < w.len() && 0 <= i < w[k].len() - 1 implies !white_space(
                #[trigger] w[k][i],
            ) by {
                if k > 0 {
                    assert(w[k] == rest[k - 1]);
                    assert(!white_space(rest[k - 1][i]));
                } else {
                    assert(w[0][i] == s[i]);
                }
            }
            assert forall|k: int| 0 <= k < w.len() - 1 implies white_space(
                (#[trigger] w[k]).last(),
            ) by {
                if k > 0 {
                    assert(w[k] == rest[k - 1]);
                } else {
                    assert(w[0].last() == s[at - 1]);
                }
            }
        }
    }
}

proof fn lemma_newline_at(s: Seq<char>)
    ensures
        newline_at(s) <= s.len(),
        newline_at(s) < s.len() ==> s[newline_at(s) as int] == '\n',
        forall|i: int| 0 <= i < newline_at(s) ==> #[trigger] s[i] != '\n',
    decreases s.len(),
{
    if s.len() > 0 && s[0] != '\n' {
        lemma_newline_at(s.skip(1));
        assert forall|i: int| 0 <= i < newline_at(s) implies #[trigger] s[i] != '\n' by {
            if i > 0 {
                assert(s.skip(1)[i - 1] == s[i]);
            }
        }
    }
}

/// A text behind a first line, which has no line feed in it, has that line in front of its
/// own lines. A carriage return in front of the line feed belongs to the end of the line. A
/// last line needs no end.
pub proof fn law_lines_end_at_line_feeds(line: Seq<char>, rest: Seq<char>)
    requires
        forall|i: int| 0 <= i < line.len() ==> #[trigger] line[i] != '\n',
    ensures
        line.len() == 0 || line.last() != '\r' ==> lines(line + seq!['\n'] + rest) == seq![line]
            + lines(rest),
        lines(line + seq!['\r', '\n'] + rest) == seq![line] + lines(rest),
        line.len() > 0 ==> lines(line) == seq![line],
        lines(Seq::empty()) == Seq::<Seq<char>>::empty(),
{
    let n = line.len() as int;
    let a = line + seq!['\n'] + rest;
    lemma_newline_at(a);
    let at = newline_at(a) as int;
    assert(a[n] == '\n');
    if at < n {
        assert(a[at] == line[at]);
    }
    assert(at == n);
    assert(a.take(n) =~= line);
    assert(a.skip(n + 1) =~= rest);
    let b = line + seq!['\r', '\n'] + rest;
    lemma_newline_at(b);
    let bt = newline_at(b) as int;
    assert(b[n + 1] == '\n');
    assert(b[n] == '\r');
    if bt < n {
        assert(b[bt] == line[bt]);
    }
    assert(bt == n + 1);
    assert(b.take(n + 1).last() == '\r');
    assert(b.take(n + 1).drop_last() =~= line);
    assert(b.skip(n + 2) =~= rest);
    lemma_newline_at(line);
}

} // verus!
