//! Text: numbers in decimal and hexadecimal, padding, trimming, searching.
//!
//! Strings are modelled by their sequence of characters.
use vstd::prelude::*;
use vstd::utf8::*;

verus! {

/// `String::push` appends one character to the end of the string.
pub assume_specification[ String::push ](s: &mut String, c: char)
    ensures
        final(s)@ == old(s)@.push(c),
;

// ---------------------------------------------------------------- model

/// The texts of a sequence of strings.
pub open spec fn texts(v: Seq<String>) -> Seq<Seq<char>> {
    v.map_values(|s: String| s@)
}

/// The decimal digit of a number below ten.
pub open spec fn digit(n: nat) -> char {
    (48 + n) as char
}

/// A natural number in decimal, without leading zeros.
pub open spec fn decimal(n: nat) -> Seq<char>
    decreases n,
{
    if n < 10 {
        seq![digit(n)]
    } else {
        decimal(n / 10).push(digit(n % 10))
    }
}

/// An integer in decimal, with a minus sign where it is negative.
pub open spec fn decimal_signed(n: int) -> Seq<char> {
    if n < 0 {
        seq!['-'] + decimal((-n) as nat)
    } else {
        decimal(n as nat)
    }
}

/// The hexadecimal digit of a number below sixteen.
pub open spec fn hex_digit(n: nat, upper: bool) -> char {
    if n < 10 {
        digit(n)
    } else if upper {
        (55 + n) as char
    } else {
        (87 + n) as char
    }
}

/// A natural number in hexadecimal, with leading zeros up to `width` digits.
pub open spec fn hex_padded(n: nat, width: nat, upper: bool) -> Seq<char>
    decreases n + width,
{
    if n == 0 && width == 0 {
        seq![]
    } else {
        hex_padded(n / 16, if width == 0 { 0 } else { (width - 1) as nat }, upper).push(
            hex_digit(n % 16, upper),
        )
    }
}

/// The bytes `from..to` of `g`, two hexadecimal digits each.
pub open spec fn hex_bytes(g: Seq<u8>, from: int, to: int, upper: bool) -> Seq<char>
    decreases to - from,
{
    if to <= from {
        seq![]
    } else {
        hex_bytes(g, from, to - 1, upper) + hex_padded(g[to - 1] as nat, 2, upper)
    }
}

/// `n` copies of the character `c`.
pub open spec fn repeated(c: char, n: nat) -> Seq<char> {
    Seq::new(n, |i: int| c)
}

/// The spaces that bring a text of `len` characters to `width`.
pub open spec fn fill(len: nat, width: nat) -> Seq<char> {
    repeated(' ', if len < width { (width - len) as nat } else { 0 })
}

/// `s`, followed by spaces up to `width` characters.
pub open spec fn left_aligned(s: Seq<char>, width: nat) -> Seq<char> {
    s + fill(s.len(), width)
}

/// `s`, preceded by spaces up to `width` characters.
pub open spec fn right_aligned(s: Seq<char>, width: nat) -> Seq<char> {
    fill(s.len(), width) + s
}

/// `s` without the run of `c` at its end.
pub open spec fn trim_end(s: Seq<char>, c: char) -> Seq<char>
    decreases s.len(),
{
    if s.len() > 0 && s.last() == c {
        trim_end(s.drop_last(), c)
    } else {
        s
    }
}

/// `s` without the run of `c` at its start.
pub open spec fn trim_start(s: Seq<char>, c: char) -> Seq<char>
    decreases s.len(),
{
    if s.len() > 0 && s[0] == c {
        trim_start(s.drop_first(), c)
    } else {
        s
    }
}

/// `s` ends with `tail`.
pub open spec fn ends_with(s: Seq<char>, tail: Seq<char>) -> bool {
    &&& tail.len() <= s.len()
    &&& s.subrange(s.len() - tail.len(), s.len() as int) == tail
}

/// `part` stands in `s` at position `i`.
pub open spec fn occurs_at(s: Seq<char>, part: Seq<char>, i: int) -> bool {
    &&& 0 <= i
    &&& i + part.len() <= s.len()
    &&& s.subrange(i, i + part.len()) == part
}

/// `part` stands somewhere in `s`.
pub open spec fn contains_text(s: Seq<char>, part: Seq<char>) -> bool {
    exists|i: int| occurs_at(s, part, i)
}

/// The pieces of `s` between the separators `c`: one more than there are separators.
pub open spec fn pieces(s: Seq<char>, c: char) -> Seq<Seq<char>>
    decreases s.len(),
{
    if s.len() == 0 {
        seq![seq![]]
    } else if s.last() == c {
        pieces(s.drop_last(), c).push(seq![])
    } else {
        let front = pieces(s.drop_last(), c);
        front.drop_last().push(front.last().push(s.last()))
    }
}

/// The first `n` characters of `s`, or all where there are fewer, without the line feeds.
pub open spec fn preview(s: Seq<char>, n: nat) -> Seq<char> {
    without(s.take(if s.len() < n { s.len() as int } else { n as int }), '\n')
}

/// `s` without the characters `c`.
pub open spec fn without(s: Seq<char>, c: char) -> Seq<char>
    decreases s.len(),
{
    if s.len() == 0 {
        s
    } else if s.last() == c {
        without(s.drop_last(), c)
    } else {
        without(s.drop_last(), c).push(s.last())
    }
}

// ---------------------------------------------------------------- numbers

fn digit_char(n: u8, upper: bool) -> (c: char)
    requires
        n < 16,
    ensures
        c == hex_digit(n as nat, upper),
{
    if n < 10 {
        (48 + n) as char
    } else if upper {
        (55 + n) as char
    } else {
        (87 + n) as char
    }
}

/// Appends `n` in decimal.
pub fn push_decimal(s: &mut String, n: u64)
    ensures
        final(s)@ == old(s)@ + decimal(n as nat),
    decreases n,
{
    if n >= 10 {
        push_decimal(s, n / 10);
    }
    s.push(digit_char((n % 10) as u8, false));
    assert(s@ =~= old(s)@ + decimal(n as nat));
}

/// Appends `n` in hexadecimal, with leading zeros up to `width` digits.
pub fn push_hex(s: &mut String, n: u64, width: u8, upper: bool)
    ensures
        final(s)@ == old(s)@ + hex_padded(n as nat, width as nat, upper),
    decreases n + width,
{
    if n != 0 || width != 0 {
        push_hex(
            s,
            n / 16,
            if width == 0 {
                0
            } else {
                width - 1
            },
            upper,
        );
        s.push(digit_char((n % 16) as u8, upper));
    }
    assert(s@ =~= old(s)@ + hex_padded(n as nat, width as nat, upper));
}

/// Appends the bytes `from..to` of `g`, two hexadecimal digits each.
pub fn push_hex_bytes(s: &mut String, g: &[u8], from: usize, to: usize, upper: bool)
    requires
        from <= to <= g.len(),
    ensures
        final(s)@ == old(s)@ + hex_bytes(g@, from as int, to as int, upper),
{
    let mut i: usize = from;
    assert(s@ =~= old(s)@ + hex_bytes(g@, from as int, from as int, upper));
    while i < to
        invariant
            from <= i <= to <= g.len(),
            s@ == old(s)@ + hex_bytes(g@, from as int, i as int, upper),
        decreases to - i,
    {
        push_hex(s, g[i] as u64, 2, upper);
        i = i + 1;
        assert(s@ =~= old(s)@ + hex_bytes(g@, from as int, i as int, upper));
    }
}

/// `n` in decimal.
pub fn decimal_text(n: u64) -> (r: String)
    ensures
        r@ == decimal(n as nat),
{
    let mut s = String::new();
    push_decimal(&mut s, n);
    assert(s@ =~= decimal(n as nat));
    s
}

/// `n` in decimal, with its sign.
pub fn decimal_signed_text(n: i64) -> (r: String)
    ensures
        r@ == decimal_signed(n as int),
{
    let mut s = String::new();
    if n < 0 {
        s.push('-');
        push_decimal(&mut s, (-(n + 1)) as u64 + 1);
    } else {
        push_decimal(&mut s, n as u64);
    }
    assert(s@ =~= decimal_signed(n as int));
    s
}

// ---------------------------------------------------------------- padding

/// Appends `n` copies of `c`.
pub fn push_repeated(s: &mut String, c: char, n: usize)
    ensures
        final(s)@ == old(s)@ + repeated(c, n as nat),
{
    let mut i: usize = 0;
    assert(s@ =~= old(s)@ + repeated(c, 0));
    while i < n
        invariant
            i <= n,
            s@ == old(s)@ + repeated(c, i as nat),
        decreases n - i,
    {
        s.push(c);
        i = i + 1;
        assert(s@ =~= old(s)@ + repeated(c, i as nat));
    }
}

/// Appends `t`, then spaces up to `width` characters.
pub fn push_left_aligned(s: &mut String, t: &str, width: usize)
    ensures
        final(s)@ == old(s)@ + left_aligned(t@, width as nat),
{
    s.append(t);
    let len = t.unicode_len();
    if len < width {
        push_repeated(s, ' ', width - len);
    }
    assert(s@ =~= old(s)@ + left_aligned(t@, width as nat));
}

/// Appends spaces, then `t`, to `width` characters.
pub fn push_right_aligned(s: &mut String, t: &str, width: usize)
    ensures
        final(s)@ == old(s)@ + right_aligned(t@, width as nat),
{
    let len = t.unicode_len();
    if len < width {
        push_repeated(s, ' ', width - len);
    }
    s.append(t);
    assert(s@ =~= old(s)@ + right_aligned(t@, width as nat));
}

// ---------------------------------------------------------------- characters

/// The characters of a text.
pub fn chars_of(s: &str) -> (r: Vec<char>)
    ensures
        r@ == s@,
{
    let mut v: Vec<char> = Vec::new();
    for c in it: s.chars()
        invariant
            it.seq() == s@,
            v@ == s@.take(it.index()),
    {
        v.push(c);
        assert(v@ =~= s@.take(it.index() + 1));
    }
    assert(v@ =~= s@);
    v
}

/// The text with the characters of `v` from `from` up to `to`.
pub fn text_between(v: &Vec<char>, from: usize, to: usize) -> (r: String)
    requires
        from <= to <= v.len(),
    ensures
        r@ == v@.subrange(from as int, to as int),
{
    let mut s = String::new();
    let mut i: usize = from;
    assert(s@ =~= v@.subrange(from as int, from as int));
    while i < to
        invariant
            from <= i <= to <= v.len(),
            s@ == v@.subrange(from as int, i as int),
        decreases to - i,
    {
        s.push(v[i]);
        i = i + 1;
        assert(s@ =~= v@.subrange(from as int, i as int));
    }
    s
}

/// Two texts are equal where their bytes are.
pub proof fn lemma_bytes_tell_texts_apart(a: Seq<char>, b: Seq<char>)
    ensures
        encode_utf8(a) == encode_utf8(b) <==> a == b,
{
    encode_utf8_decode_utf8(a);
    encode_utf8_decode_utf8(b);
}

/// Whether two texts have the same characters.
pub fn same_text(a: &str, b: &str) -> (r: bool)
    ensures
        r == (a@ == b@),
{
    proof {
        lemma_bytes_tell_texts_apart(a@, b@);
    }
    let x = a.as_bytes();
    let y = b.as_bytes();
    if x.len() != y.len() {
        return false;
    }
    let mut i: usize = 0;
    while i < x.len()
        invariant
            i <= x.len(),
            x.len() == y.len(),
            x@ == encode_utf8(a@),
            y@ == encode_utf8(b@),
            encode_utf8(a@) == encode_utf8(b@) <==> a@ == b@,
            forall|j: int| 0 <= j < i ==> x@[j] == y@[j],
        decreases x.len() - i,
    {
        if x[i] != y[i] {
            return false;
        }
        i = i + 1;
    }
    assert(x@ =~= y@);
    true
}

// ---------------------------------------------------------------- trimming and searching

proof fn lemma_trim_end_within(s: Seq<char>, c: char, to: int)
    requires
        0 <= to <= s.len(),
        forall|j: int| to <= j < s.len() ==> s[j] == c,
        to == 0 || s[to - 1] != c,
    ensures
        trim_end(s, c) == s.take(to),
    decreases s.len(),
{
    if to < s.len() {
        lemma_trim_end_within(s.drop_last(), c, to);
        assert(s.drop_last().take(to) =~= s.take(to));
    } else {
        assert(s.take(to) =~= s);
    }
}

/// `s` without the run of `c` at its end.
pub fn trimmed_end(s: &str, c: char) -> (r: String)
    ensures
        r@ == trim_end(s@, c),
{
    let v = chars_of(s);
    let mut to: usize = v.len();
    while to > 0 && v[to - 1] == c
        invariant
            to <= v.len(),
            v@ == s@,
            forall|j: int| to <= j < v.len() ==> v@[j] == c,
        decreases to,
    {
        to = to - 1;
    }
    proof {
        lemma_trim_end_within(s@, c, to as int);
    }
    text_between(&v, 0, to)
}

proof fn lemma_trim_start_within(s: Seq<char>, c: char, from: int)
    requires
        0 <= from <= s.len(),
        forall|j: int| 0 <= j < from ==> s[j] == c,
        from == s.len() || s[from] != c,
    ensures
        trim_start(s, c) == s.skip(from),
    decreases s.len(),
{
    if from > 0 {
        lemma_trim_start_within(s.drop_first(), c, from - 1);
        assert(s.drop_first().skip(from - 1) =~= s.skip(from));
    } else {
        assert(s.skip(from) =~= s);
    }
}

/// `s` without the run of `c` at its start.
pub fn trimmed_start(s: &str, c: char) -> (r: String)
    ensures
        r@ == trim_start(s@, c),
{
    let v = chars_of(s);
    let mut from: usize = 0;
    while from < v.len() && v[from] == c
        invariant
            from <= v.len(),
            v@ == s@,
            forall|j: int| 0 <= j < from ==> v@[j] == c,
        decreases v.len() - from,
    {
        from = from + 1;
    }
    proof {
        lemma_trim_start_within(s@, c, from as int);
        assert(s@.skip(from as int) =~= s@.subrange(from as int, s@.len() as int));
    }
    text_between(&v, from, v.len())
}

fn stands_at(v: &Vec<char>, part: &Vec<char>, at: usize) -> (r: bool)
    requires
        at + part.len() <= v.len(),
    ensures
        r == occurs_at(v@, part@, at as int),
{
    let mut i: usize = 0;
    while i < part.len()
        invariant
            i <= part.len(),
            at + part.len() <= v.len(),
            forall|j: int| 0 <= j < i ==> v@[at + j] == part@[j],
        decreases part.len() - i,
    {
        if v[at + i] != part[i] {
            assert(v@.subrange(at as int, at + part@.len())[i as int] != part@[i as int]);
            return false;
        }
        i = i + 1;
    }
    assert(v@.subrange(at as int, at + part@.len()) =~= part@);
    true
}

/// Whether `s` ends with `tail`.
pub fn has_ending(s: &str, tail: &str) -> (r: bool)
    ensures
        r == ends_with(s@, tail@),
{
    let v = chars_of(s);
    let t = chars_of(tail);
    t.len() <= v.len() && stands_at(&v, &t, v.len() - t.len())
}

/// Whether `part` stands somewhere in `s`.
pub fn has_part(s: &str, part: &str) -> (r: bool)
    ensures
        r == contains_text(s@, part@),
{
    let v = chars_of(s);
    let p = chars_of(part);
    let mut i: usize = 0;
    while i <= v.len() && p.len() <= v.len() - i
        invariant
            v@ == s@,
            p@ == part@,
            i <= v.len() + 1,
            forall|j: int| 0 <= j < i ==> !occurs_at(s@, part@, j),
        decreases v.len() + 1 - i,
    {
        if stands_at(&v, &p, i) {
            return true;
        }
        if i == v.len() {
            assert forall|j: int| !occurs_at(s@, part@, j) by {}
            return false;
        }
        i = i + 1;
    }
    assert forall|j: int| !occurs_at(s@, part@, j) by {}
    false
}

/// The pieces of `s` between the separators `c`.
pub fn split_on(s: &str, c: char) -> (r: Vec<String>)
    ensures
        texts(r@) == pieces(s@, c),
        r.len() >= 1,
{
    let v = chars_of(s);
    let mut out: Vec<String> = Vec::new();
    let mut start: usize = 0;
    let mut i: usize = 0;
    assert(texts(out@) =~= seq![]);
    assert(v@.subrange(0, 0) =~= seq![]);
    assert(texts(out@).push(v@.subrange(0, 0)) =~= pieces(v@.take(0), c));
    while i < v.len()
        invariant
            start <= i <= v.len(),
            v@ == s@,
            texts(out@).push(v@.subrange(start as int, i as int)) == pieces(v@.take(i as int), c),
        decreases v.len() - i,
    {
        let ghost before = pieces(v@.take(i as int), c);
        assert(v@.take(i + 1).drop_last() =~= v@.take(i as int));
        assert(before.last() == v@.subrange(start as int, i as int));
        assert(before.drop_last() =~= texts(out@));
        if v[i] == c {
            let ghost shown = texts(out@);
            out.push(text_between(&v, start, i));
            start = i + 1;
            assert(texts(out@) =~= before);
            assert(v@.subrange(start as int, i + 1) =~= seq![]);
        } else {
            assert(v@.subrange(start as int, i as int).push(v@[i as int]) =~= v@.subrange(
                start as int,
                i + 1,
            ));
        }
        i = i + 1;
    }
    out.push(text_between(&v, start, v.len()));
    assert(v@.take(v.len() as int) =~= s@);
    assert(texts(out@) =~= pieces(s@, c));
    out
}

/// The first `n` characters of `s`, without the line feeds.
pub fn preview_text(s: &str, n: usize) -> (r: String)
    ensures
        r@ == preview(s@, n as nat),
{
    let v = chars_of(s);
    let end: usize = if v.len() < n {
        v.len()
    } else {
        n
    };
    let mut out = String::new();
    let mut i: usize = 0;
    assert(out@ =~= without(v@.take(0), '\n'));
    while i < end
        invariant
            i <= end <= v.len(),
            out@ == without(v@.take(i as int), '\n'),
        decreases end - i,
    {
        assert(v@.take(i + 1).drop_last() =~= v@.take(i as int));
        if v[i] != '\n' {
            out.push(v[i]);
        }
        i = i + 1;
    }
    out
}

/// `a`, followed by `b`.
pub fn concat_texts(a: &str, b: &str) -> (r: String)
    ensures
        r@ == a@ + b@,
{
    let mut s = a.to_owned();
    s.append(b);
    s
}

// ---------------------------------------------------------------- what texts say

/// The value of a digit in base sixteen.
pub open spec fn digit_value(c: char) -> int {
    if '0' <= c && c <= '9' {
        c as int - '0' as int
    } else if 'a' <= c && c <= 'f' {
        c as int - 'a' as int + 10
    } else if 'A' <= c && c <= 'F' {
        c as int - 'A' as int + 10
    } else {
        -1
    }
}

/// The number that some digits write in a base.
pub open spec fn number_in(base: int, s: Seq<char>) -> int
    decreases s.len(),
{
    if s.len() == 0 {
        0
    } else {
        number_in(base, s.drop_last()) * base + digit_value(s.last())
    }
}

/// A number in decimal is read back from its digits, of which the first is not zero where there
/// are several.
pub proof fn law_decimal_is_the_number(n: nat)
    ensures
        number_in(10, decimal(n)) == n,
        decimal(n).len() > 0,
        decimal(n).len() > 1 ==> decimal(n)[0] != '0',
        forall|i: int|
            0 <= i < decimal(n).len() ==> '0' <= #[trigger] decimal(n)[i] && decimal(n)[i] <= '9',
        n > 0 ==> decimal(n)[0] != '0',
    decreases n,
{
    if n >= 10 {
        law_decimal_is_the_number(n / 10);
        assert(decimal(n).drop_last() =~= decimal(n / 10));
        assert(decimal(n)[0] == decimal(n / 10)[0]);
    } else {
        assert(decimal(n).drop_last() =~= seq![]);
        assert(number_in(10, seq![]) == 0);
    }
}

/// A signed number in decimal has a minus sign where it is negative, and its amount behind it.
pub proof fn law_signed_decimal_is_the_number(n: int)
    ensures
        n < 0 ==> {
            &&& decimal_signed(n)[0] == '-'
            &&& number_in(10, decimal_signed(n).drop_first()) == -n
        },
        n >= 0 ==> {
            &&& decimal_signed(n)[0] != '-'
            &&& number_in(10, decimal_signed(n)) == n
        },
{
    if n < 0 {
        law_decimal_is_the_number((-n) as nat);
        assert(decimal_signed(n).drop_first() =~= decimal((-n) as nat));
    } else {
        law_decimal_is_the_number(n as nat);
    }
}

/// A hexadecimal digit, in capitals or not.
pub open spec fn is_hex_digit(c: char, upper: bool) -> bool {
    ('0' <= c && c <= '9') || (if upper {
        'A' <= c && c <= 'F'
    } else {
        'a' <= c && c <= 'f'
    })
}

/// A number in hexadecimal is read back from its digits. There are as many as asked for; more
/// only where the number needs them.
pub proof fn law_hexadecimal_is_the_number(n: nat, width: nat, upper: bool)
    ensures
        number_in(16, hex_padded(n, width, upper)) == n,
        hex_padded(n, width, upper).len() >= width,
        hex_padded(n, width, upper).len() > width ==> hex_padded(n, width, upper)[0] != '0',
        forall|i: int|
            0 <= i < hex_padded(n, width, upper).len() ==> is_hex_digit(
                #[trigger] hex_padded(n, width, upper)[i],
                upper,
            ),
    decreases n + width,
{
    let s = hex_padded(n, width, upper);
    if n > 0 || width > 0 {
        let w = if width == 0 { 0 } else { (width - 1) as nat };
        law_hexadecimal_is_the_number(n / 16, w, upper);
        let front = hex_padded(n / 16, w, upper);
        assert(s.drop_last() =~= front);
        if s.len() > width {
            if front.len() > w {
                assert(s[0] == front[0]);
            } else {
                assert(width == 0 && front.len() == 0);
                assert(n / 16 == 0) by {
                    if n / 16 > 0 {
                        assert(hex_padded(n / 16, 0, upper).len() > 0);
                    }
                }
            }
        }
    }
}

proof fn lemma_number_is_large(s: Seq<char>)
    requires
        s.len() > 0,
        s[0] != '0',
        forall|i: int| 0 <= i < s.len() ==> 0 <= digit_value(#[trigger] s[i]),
        digit_value(s[0]) != 0,
    ensures
        number_in(16, s) >= vstd::arithmetic::power::pow(16, (s.len() - 1) as nat),
    decreases s.len(),
{
    reveal(vstd::arithmetic::power::pow);
    let t = s.drop_last();
    if t.len() > 0 {
        assert forall|i: int| 0 <= i < t.len() implies 0 <= digit_value(#[trigger] t[i]) by {
            assert(t[i] == s[i]);
        }
        lemma_number_is_large(t);
        assert(number_in(16, t) * 16 >= vstd::arithmetic::power::pow(16, (t.len() - 1) as nat) * 16);
        assert(s[s.len() - 1] == s.last());
    } else {
        assert(number_in(16, t) == 0);
    }
}

/// A number that fits in so many hexadecimal digits has just as many.
pub proof fn law_hexadecimal_has_its_width(n: nat, width: nat, upper: bool)
    requires
        n < vstd::arithmetic::power::pow(16, width),
    ensures
        hex_padded(n, width, upper).len() == width,
{
    let s = hex_padded(n, width, upper);
    law_hexadecimal_is_the_number(n, width, upper);
    if s.len() > width {
        lemma_number_is_large(s);
        vstd::arithmetic::power::lemma_pow_increases(16, width, (s.len() - 1) as nat);
    }
}

/// Bytes in hexadecimal have two digits each, from which they are read back.
pub proof fn law_hex_bytes_are_the_bytes(g: Seq<u8>, from: int, to: int, upper: bool, k: int)
    requires
        from <= k < to,
    ensures
        hex_bytes(g, from, to, upper).len() == 2 * (to - from),
        ({
            let at = 2 * (k - from);
            let pair = hex_bytes(g, from, to, upper).subrange(at, at + 2);
            &&& number_in(16, pair) == g[k]
            &&& is_hex_digit(pair[0], upper)
            &&& is_hex_digit(pair[1], upper)
        }),
    decreases to - from,
{
    let n = g[to - 1] as nat;
    lemma_byte_has_two_digits(n, upper);
    let last = hex_padded(n, 2, upper);
    let front = hex_bytes(g, from, to - 1, upper);
    let all = hex_bytes(g, from, to, upper);
    if to - 1 > from {
        law_hex_bytes_are_the_bytes(g, from, to - 1, upper, if k < to - 1 { k } else { from });
    }
    let at = 2 * (k - from);
    if k < to - 1 {
        assert(all.subrange(at, at + 2) =~= front.subrange(at, at + 2));
    } else {
        assert(all.subrange(at, at + 2) =~= last);
        law_hexadecimal_is_the_number(n, 2, upper);
    }
}

pub proof fn lemma_byte_has_two_digits(n: nat, upper: bool)
    requires
        n < 256,
    ensures
        hex_padded(n, 2, upper).len() == 2,
        number_in(16, hex_padded(n, 2, upper)) == n,
{
    assert(vstd::arithmetic::power::pow(16, 2) == 256) by {
        reveal_with_fuel(vstd::arithmetic::power::pow, 3);
    }
    law_hexadecimal_has_its_width(n, 2, upper);
    law_hexadecimal_is_the_number(n, 2, upper);
}

/// An aligned text is the text and spaces: behind it or before it, and only as many as the
/// width leaves room for.
pub proof fn law_aligned_text_is_filled(s: Seq<char>, width: nat)
    ensures
        ({
            let len = if s.len() < width { width } else { s.len() };
            let l = left_aligned(s, width);
            let r = right_aligned(s, width);
            &&& l.len() == len
            &&& l.take(s.len() as int) == s
            &&& forall|i: int| s.len() <= i < len ==> #[trigger] l[i] == ' '
            &&& r.len() == len
            &&& r.skip(len - s.len()) == s
            &&& forall|i: int| 0 <= i < len - s.len() ==> #[trigger] r[i] == ' '
        }),
{
    let len = if s.len() < width { width } else { s.len() };
    assert(left_aligned(s, width).take(s.len() as int) =~= s);
    assert(right_aligned(s, width).skip(len - s.len()) =~= s);
}

/// Some texts one behind the other, with a separator between any two.
pub open spec fn joined(parts: Seq<Seq<char>>, c: char) -> Seq<char>
    decreases parts.len(),
{
    if parts.len() == 0 {
        seq![]
    } else if parts.len() == 1 {
        parts[0]
    } else {
        joined(parts.drop_last(), c).push(c) + parts.last()
    }
}

/// The pieces of a text, with the separators between them, are the text again. None holds a
/// separator.
pub proof fn law_pieces_make_the_text(s: Seq<char>, c: char)
    ensures
        pieces(s, c).len() > 0,
        joined(pieces(s, c), c) == s,
        forall|k: int| 0 <= k < pieces(s, c).len() ==> !(#[trigger] pieces(s, c)[k]).contains(c),
    decreases s.len(),
{
    let all = pieces(s, c);
    if s.len() == 0 {
        assert(joined(all, c) =~= s);
    } else {
        let t = s.drop_last();
        let front = pieces(t, c);
        law_pieces_make_the_text(t, c);
        assert(s =~= t.push(s.last()));
        if s.last() == c {
            assert(all.drop_last() =~= front);
            assert(joined(all, c) =~= t.push(c));
            assert forall|k: int| 0 <= k < all.len() implies !(#[trigger] all[k]).contains(c) by {
                if k < front.len() {
                    assert(all[k] == front[k]);
                }
            }
        } else {
            assert(all.drop_last() =~= front.drop_last());
            assert(all.last() == front.last().push(s.last()));
            if all.len() == 1 {
                assert(joined(all, c) =~= front[0].push(s.last()));
            } else {
                assert(joined(all, c) =~= joined(front, c).push(s.last()));
            }
            assert forall|k: int| 0 <= k < all.len() implies !(#[trigger] all[k]).contains(c) by {
                assert(!front[k].contains(c));
                if k < all.len() - 1 {
                    assert(all[k] == front[k]);
                } else if all[k].contains(c) {
                    let i = choose|i: int| 0 <= i < all[k].len() && all[k][i] == c;
                    assert(front[k][i] == c);
                }
            }
        }
    }
}

proof fn lemma_pieces_of_a_name(s: Seq<char>, name: Seq<char>, c: char)
    requires
        !name.contains(c),
    ensures
        pieces(s + name, c) == pieces(s, c).drop_last().push(pieces(s, c).last() + name),
    decreases name.len(),
{
    law_pieces_make_the_text(s, c);
    if name.len() == 0 {
        assert(s + name =~= s);
        assert(pieces(s, c).last() + name =~= pieces(s, c).last());
        assert(pieces(s, c).drop_last().push(pieces(s, c).last()) =~= pieces(s, c));
    } else {
        let front = name.drop_last();
        assert forall|i: int| 0 <= i < front.len() implies front[i] != c by {
            assert(name[i] == front[i]);
        }
        lemma_pieces_of_a_name(s, front, c);
        assert((s + name).drop_last() =~= s + front);
        assert(name.contains(name.last()));
        let before = pieces(s + front, c);
        assert(before.drop_last() =~= pieces(s, c).drop_last());
        assert((pieces(s, c).last() + front).push(name.last()) =~= pieces(s, c).last() + name);
    }
}

/// Names that hold no separator are the pieces of the text that joins them.
pub proof fn law_joined_names_are_the_pieces(names: Seq<Seq<char>>, c: char)
    requires
        names.len() > 0,
        forall|k: int| 0 <= k < names.len() ==> !(#[trigger] names[k]).contains(c),
    ensures
        pieces(joined(names, c), c) == names,
    decreases names.len(),
{
    let none = Seq::<char>::empty();
    if names.len() == 1 {
        lemma_pieces_of_a_name(none, names[0], c);
        assert(none + names[0] =~= names[0]);
        assert(pieces(none, c) =~= seq![none]);
        assert(pieces(names[0], c) =~= names);
    } else {
        let front = names.drop_last();
        assert forall|k: int| 0 <= k < front.len() implies !(#[trigger] front[k]).contains(c) by {
            assert(front[k] == names[k]);
        }
        law_joined_names_are_the_pieces(front, c);
        let s = joined(front, c).push(c);
        assert(s.drop_last() =~= joined(front, c));
        assert(pieces(s, c) =~= front.push(none));
        lemma_pieces_of_a_name(s, names.last(), c);
        assert(none + names.last() =~= names.last());
        assert(pieces(joined(names, c), c) =~= names);
    }
}

/// What is cut off at the end of a text is a run of the character, and all of it.
pub proof fn law_trimmed_end_is_a_run(s: Seq<char>, c: char)
    ensures
        trim_end(s, c).len() <= s.len(),
        trim_end(s, c) == s.take(trim_end(s, c).len() as int),
        forall|i: int| trim_end(s, c).len() <= i < s.len() ==> #[trigger] s[i] == c,
        trim_end(s, c).len() > 0 ==> trim_end(s, c).last() != c,
    decreases s.len(),
{
    if s.len() > 0 && s.last() == c {
        let t = s.drop_last();
        law_trimmed_end_is_a_run(t, c);
        assert(t.take(trim_end(s, c).len() as int) =~= s.take(trim_end(s, c).len() as int));
        assert forall|i: int| trim_end(s, c).len() <= i < s.len() implies #[trigger] s[i] == c by {
            if i < t.len() {
                assert(t[i] == s[i]);
            }
        }
    } else {
        assert(s.take(s.len() as int) =~= s);
    }
}

/// What is cut off at the start of a text is a run of the character, and all of it.
pub proof fn law_trimmed_start_is_a_run(s: Seq<char>, c: char)
    ensures
        trim_start(s, c).len() <= s.len(),
        trim_start(s, c) == s.skip(s.len() - trim_start(s, c).len()),
        forall|i: int| 0 <= i < s.len() - trim_start(s, c).len() ==> #[trigger] s[i] == c,
        trim_start(s, c).len() > 0 ==> trim_start(s, c)[0] != c,
    decreases s.len(),
{
    if s.len() > 0 && s[0] == c {
        let t = s.drop_first();
        law_trimmed_start_is_a_run(t, c);
        let n = t.len() - trim_start(s, c).len();
        assert(t.skip(n) =~= s.skip(n + 1));
        assert forall|i: int| 0 <= i < n + 1 implies #[trigger] s[i] == c by {
            if i > 0 {
                assert(t[i - 1] == s[i]);
            }
        }
    } else {
        assert(s.skip(0) =~= s);
    }
}

/// A text ends with another where it is some text and that one, and has it as a part where it
/// is some text, that one, and some text.
pub proof fn law_parts_of_a_text(a: Seq<char>, part: Seq<char>, b: Seq<char>)
    ensures
        ends_with(a + part, part),
        contains_text(a + part + b, part),
{
    assert((a + part).subrange(a.len() as int, (a + part).len() as int) =~= part);
    let s = a + part + b;
    assert(s.subrange(a.len() as int, (a.len() + part.len()) as int) =~= part);
    assert(occurs_at(s, part, a.len() as int));
}

/// A text that ends with another is some text and that one; a text that has another as a part
/// is some text, that one, and some text.
pub proof fn law_texts_with_a_part(s: Seq<char>, part: Seq<char>)
    ensures
        ends_with(s, part) ==> part.len() <= s.len() && s == s.take(s.len() - part.len()) + part,
        contains_text(s, part) ==> exists|i: int|
            0 <= i && i + part.len() <= s.len() && s == #[trigger] s.take(i) + part + s.skip(
                i + part.len(),
            ),
{
    if ends_with(s, part) {
        assert(s =~= s.take(s.len() - part.len()) + s.subrange(
            s.len() - part.len(),
            s.len() as int,
        ));
    }
    if contains_text(s, part) {
        let i = choose|i: int| occurs_at(s, part, i);
        assert(s =~= s.take(i) + s.subrange(i, i + part.len()) + s.skip(i + part.len()));
    }
}

/// A preview holds the characters at the start of the text, but for the line feeds, in order.
pub proof fn law_preview_is_the_start(s: Seq<char>, n: nat)
    ensures
        s.len() <= n ==> preview(s, n) == s.filter(|c: char| c != '\n'),
        s.len() > n ==> preview(s, n) == s.take(n as int).filter(|c: char| c != '\n'),
        preview(s, n).len() <= n,
{
    if s.len() <= n {
        assert(s.take(s.len() as int) =~= s);
        lemma_without_is_a_filter(s, '\n');
    } else {
        lemma_without_is_a_filter(s.take(n as int), '\n');
    }
}

proof fn lemma_without_is_a_filter(s: Seq<char>, c: char)
    ensures
        without(s, c) == s.filter(|x: char| x != c),
        without(s, c).len() <= s.len(),
    decreases s.len(),
{
    reveal(Seq::filter);
    if s.len() > 0 {
        lemma_without_is_a_filter(s.drop_last(), c);
    } else {
        assert(without(s, c) =~= s.filter(|x: char| x != c));
    }
}

/// The texts of some strings are those of each, in order.
pub proof fn law_texts_are_one_by_one(v: Seq<String>, i: int)
    requires
        0 <= i < v.len(),
    ensures
        texts(v).len() == v.len(),
        texts(v)[i] == v[i]@,
{
}

} // verus!
