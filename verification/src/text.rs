//! Character-level helpers shared by the scanner and the header detector.

use vstd::prelude::*;

verus! {

/// `String::push` appends exactly one character to the end of the string.
pub assume_specification[ String::push ](s: &mut String, ch: char)
    ensures
        final(s)@ == old(s)@.push(ch),
;

/// The characters of `s`, in order.
pub fn chars_of(s: &str) -> (v: Vec<char>)
    ensures
        v@ == s@,
{
    let mut v: Vec<char> = Vec::new();
    for c in it: s.chars()
        invariant
            v@ == it.seq().take(it.index()),
            it.seq() == s@,
    {
        v.push(c);
    }
    v
}

/// Whether `c` is white space: the tab-to-carriage-return controls, the
/// space, and the Unicode separators beyond ASCII.
pub open spec fn is_whitespace(c: char) -> bool {
    let u = c as u32;
    ||| 0x09 <= u <= 0x0D
    ||| u == 0x20
    ||| u == 0x85
    ||| u == 0xA0
    ||| u == 0x1680
    ||| 0x2000 <= u <= 0x200A
    ||| u == 0x2028
    ||| u == 0x2029
    ||| u == 0x202F
    ||| u == 0x205F
    ||| u == 0x3000
}

/// Whether every character of `s` is white space (true of the empty text).
pub open spec fn is_blank(s: Seq<char>) -> bool {
    forall|i: int| 0 <= i < s.len() ==> is_whitespace(#[trigger] s[i])
}

/// Appending a character keeps a text blank exactly when the text was blank
/// and the character is white space.
pub proof fn lemma_blank_push(s: Seq<char>, c: char)
    ensures
        is_blank(s.push(c)) == (is_blank(s) && is_whitespace(c)),
{
    if is_blank(s) && is_whitespace(c) {
        assert forall|i: int| 0 <= i < s.push(c).len() implies is_whitespace(
            #[trigger] s.push(c)[i],
        ) by {
            if i < s.len() {
                assert(s.push(c)[i] == s[i]);
            }
        }
    } else if !is_blank(s) {
        let i = choose|i: int| 0 <= i < s.len() && !is_whitespace(#[trigger] s[i]);
        assert(s.push(c)[i] == s[i]);
    } else {
        assert(s.push(c)[s.len() as int] == c);
    }
}

/// A text that holds a character other than white space is not blank,
/// whatever stands before and after it.
pub proof fn lemma_not_blank(s: Seq<char>, i: int)
    requires
        0 <= i < s.len(),
        !is_whitespace(s[i]),
    ensures
        !is_blank(s),
{
}

/// Appends the characters `chars[from..to]` to `out`.
pub fn push_range(out: &mut String, chars: &Vec<char>, from: usize, to: usize)
    requires
        from <= to <= chars.len(),
    ensures
        final(out)@ == old(out)@ + chars@.subrange(from as int, to as int),
{
    let mut i: usize = from;
    while i < to
        invariant
            from <= i <= to <= chars.len(),
            out@ == old(out)@ + chars@.subrange(from as int, i as int),
        decreases to - i,
    {
        out.push(chars[i]);
        i += 1;
        assert(out@ =~= old(out)@ + chars@.subrange(from as int, i as int));
    }
    assert(out@ =~= old(out)@ + chars@.subrange(from as int, to as int));
}

/// Tells whether `c` is white space.
pub fn char_is_whitespace(c: char) -> (b: bool)
    ensures
        b == is_whitespace(c),
{
    let u: u32 = c as u32;
    (0x09 <= u && u <= 0x0D) || u == 0x20 || u == 0x85 || u == 0xA0 || u == 0x1680 || (0x2000 <= u
        && u <= 0x200A) || u == 0x2028 || u == 0x2029 || u == 0x202F || u == 0x205F || u == 0x3000
}

/// The first position at or after `from` that holds no white space, or the
/// length of `s` where only white space follows.
pub open spec fn ink_start(s: Seq<char>, from: int) -> int
    decreases s.len() - from,
{
    if 0 <= from < s.len() && is_whitespace(s[from]) {
        ink_start(s, from + 1)
    } else {
        from
    }
}

/// The end of the last stretch before `to` that holds no white space, or
/// zero where only white space comes before.
pub open spec fn ink_end(s: Seq<char>, to: int) -> int
    decreases to,
{
    if 0 < to <= s.len() && is_whitespace(s[to - 1]) {
        ink_end(s, to - 1)
    } else {
        to
    }
}

/// `s` without the white space at its two ends.
pub open spec fn trimmed(s: Seq<char>) -> Seq<char> {
    let a = ink_start(s, 0);
    let b = ink_end(s, s.len() as int);
    if a < b {
        s.subrange(a, b)
    } else {
        Seq::empty()
    }
}

/// Where `ink_start` points: everything it skipped is white space, and what
/// it stops at is not.
pub proof fn lemma_ink_start(s: Seq<char>, from: int)
    requires
        0 <= from <= s.len(),
    ensures
        from <= ink_start(s, from) <= s.len(),
        forall|j: int| from <= j < ink_start(s, from) ==> is_whitespace(#[trigger] s[j]),
        ink_start(s, from) < s.len() ==> !is_whitespace(s[ink_start(s, from)]),
    decreases s.len() - from,
{
    if from < s.len() && is_whitespace(s[from]) {
        lemma_ink_start(s, from + 1);
    }
}

/// Where `ink_end` points: everything it skipped is white space, and what
/// stands just before it is not.
pub proof fn lemma_ink_end(s: Seq<char>, to: int)
    requires
        0 <= to <= s.len(),
    ensures
        0 <= ink_end(s, to) <= to,
        forall|j: int| ink_end(s, to) <= j < to ==> is_whitespace(#[trigger] s[j]),
        ink_end(s, to) > 0 ==> !is_whitespace(s[ink_end(s, to) - 1]),
    decreases to,
{
    if 0 < to && is_whitespace(s[to - 1]) {
        lemma_ink_end(s, to - 1);
    }
}

/// A text trims to nothing exactly when it is blank.
pub proof fn lemma_trimmed_blank(s: Seq<char>)
    ensures
        (trimmed(s).len() == 0) == is_blank(s),
{
    lemma_ink_start(s, 0);
    lemma_ink_end(s, s.len() as int);
    let a = ink_start(s, 0);
    let b = ink_end(s, s.len() as int);
    if a < s.len() {
        // the character at `a` is no white space, so `b` lies beyond it
        assert(b > a) by {
            if b <= a {
                assert(is_whitespace(s[a]));
            }
        }
        assert(!is_blank(s));
        assert(trimmed(s).len() == b - a);
    } else {
        assert(is_blank(s));
    }
}

/// The range of `chars` that is left when the white space at both ends is
/// cut off: `chars[r.0..r.1]`.
pub fn trim_bounds(chars: &Vec<char>) -> (r: (usize, usize))
    ensures
        r.0 <= r.1 <= chars.len(),
        chars@.subrange(r.0 as int, r.1 as int) == trimmed(chars@),
{
    let n = chars.len();
    let mut a: usize = 0;
    while a < n && char_is_whitespace(chars[a])
        invariant
            a <= n == chars.len(),
            ink_start(chars@, 0) == ink_start(chars@, a as int),
        decreases n - a,
    {
        a += 1;
    }
    let mut b: usize = n;
    while b > a && char_is_whitespace(chars[b - 1])
        invariant
            a <= b <= n == chars.len(),
            ink_end(chars@, n as int) == ink_end(chars@, b as int),
        decreases b,
    {
        b -= 1;
    }
    proof {
        lemma_ink_start(chars@, 0);
        lemma_ink_end(chars@, n as int);
        if a == b {
            // nothing but white space from `a` on, so the end lies at or before `a`
            lemma_ink_end(chars@, b as int);
            assert(chars@.subrange(a as int, b as int) =~= Seq::<char>::empty());
        }
    }
    (a, b)
}

/// Whether `chars[from..to]` begins with `prefix`.
pub fn window_starts_with(chars: &Vec<char>, from: usize, to: usize, prefix: &str) -> (b: bool)
    requires
        from <= to <= chars.len(),
    ensures
        b == prefix@.is_prefix_of(chars@.subrange(from as int, to as int)),
{
    let p = chars_of(prefix);
    let ghost window = chars@.subrange(from as int, to as int);
    if p.len() > to - from {
        return false;
    }
    let mut k: usize = 0;
    while k < p.len()
        invariant
            k <= p.len() <= to - from,
            from <= to <= chars.len(),
            p@ == prefix@,
            window == chars@.subrange(from as int, to as int),
            forall|j: int| 0 <= j < k ==> p@[j] == window[j],
        decreases p.len() - k,
    {
        if p[k] != chars[from + k] {
            assert(p@[k as int] != window[k as int]);
            assert(window.subrange(0, p@.len() as int)[k as int] == window[k as int]);
            return false;
        }
        k += 1;
    }
    assert(p@ =~= window.subrange(0, p@.len() as int));
    true
}

/// The character for the decimal digit `d`.
pub open spec fn digit_char(d: int) -> char {
    if d == 0 {
        '0'
    } else if d == 1 {
        '1'
    } else if d == 2 {
        '2'
    } else if d == 3 {
        '3'
    } else if d == 4 {
        '4'
    } else if d == 5 {
        '5'
    } else if d == 6 {
        '6'
    } else if d == 7 {
        '7'
    } else if d == 8 {
        '8'
    } else {
        '9'
    }
}

/// `n` written in decimal, without leading zeros.
pub open spec fn decimal(n: nat) -> Seq<char>
    decreases n,
{
    if n < 10 {
        seq![digit_char(n as int)]
    } else {
        decimal(n / 10).push(digit_char((n % 10) as int))
    }
}

fn digit(d: usize) -> (c: char)
    requires
        d < 10,
    ensures
        c == digit_char(d as int),
{
    if d == 0 {
        '0'
    } else if d == 1 {
        '1'
    } else if d == 2 {
        '2'
    } else if d == 3 {
        '3'
    } else if d == 4 {
        '4'
    } else if d == 5 {
        '5'
    } else if d == 6 {
        '6'
    } else if d == 7 {
        '7'
    } else if d == 8 {
        '8'
    } else {
        '9'
    }
}

/// Appends `n`, written in decimal, to `out`.
pub fn push_decimal(out: &mut String, n: usize)
    ensures
        final(out)@ == old(out)@ + decimal(n as nat),
    decreases n,
{
    if n < 10 {
        out.push(digit(n));
        assert(out@ =~= old(out)@ + decimal(n as nat));
    } else {
        push_decimal(out, n / 10);
        out.push(digit(n % 10));
        assert(out@ =~= old(out)@ + decimal(n as nat));
    }
}

/// Appends the characters of `s` to `out`.
pub fn push_text(out: &mut String, s: &str)
    ensures
        final(out)@ == old(out)@ + s@,
{
    let chars = chars_of(s);
    push_range(out, &chars, 0, chars.len());
    assert(chars@.subrange(0, chars@.len() as int) =~= chars@);
}

/// The texts that a vector of strings holds.
pub open spec fn texts(lines: Seq<String>) -> Seq<Seq<char>> {
    Seq::new(lines.len(), |i: int| lines[i]@)
}

/// `lines` joined into one text, with a line feed between every two.
pub open spec fn joined(lines: Seq<Seq<char>>) -> Seq<char>
    decreases lines.len(),
{
    if lines.len() == 0 {
        Seq::empty()
    } else if lines.len() == 1 {
        lines[0]
    } else {
        joined(lines.drop_last()) + seq!['\n'] + lines.last()
    }
}

/// Appends the first `count` of `lines` to `out`, joined by line feeds.
pub fn push_joined(out: &mut String, lines: &Vec<String>, count: usize)
    requires
        count <= lines.len(),
    ensures
        final(out)@ == old(out)@ + joined(texts(lines@).take(count as int)),
{
    let ghost all = texts(lines@);
    let mut i: usize = 0;
    assert(all.take(0) =~= Seq::<Seq<char>>::empty());
    assert(out@ =~= old(out)@ + joined(all.take(0)));
    while i < count
        invariant
            i <= count <= lines.len(),
            all == texts(lines@),
            out@ == old(out)@ + joined(all.take(i as int)),
        decreases count - i,
    {
        if i > 0 {
            out.push('\n');
        }
        push_text(out, lines[i].as_str());
        proof {
            let next = all.take(i + 1);
            assert(next.drop_last() =~= all.take(i as int));
            assert(next.last() == lines@[i as int]@);
            if i > 0 {
                assert(out@ =~= old(out)@ + (joined(all.take(i as int)) + seq!['\n']
                    + lines@[i as int]@));
            } else {
                assert(out@ =~= old(out)@ + joined(next));
            }
        }
        i += 1;
    }
}

} // verus!
