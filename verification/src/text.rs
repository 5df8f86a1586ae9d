//! Text as sequences of characters: whitespace, fields, lines, decimal numbers and padding.

use vstd::prelude::*;

verus! {

// ---- what text means ----

/// The characters that Unicode gives the `White_Space` property.
pub open spec fn is_space(c: char) -> bool {
    ||| '\u{9}' <= c <= '\u{d}'
    ||| c == ' '
    ||| c == '\u{85}'
    ||| c == '\u{a0}'
    ||| c == '\u{1680}'
    ||| '\u{2000}' <= c <= '\u{200a}'
    ||| c == '\u{2028}'
    ||| c == '\u{2029}'
    ||| c == '\u{202f}'
    ||| c == '\u{205f}'
    ||| c == '\u{3000}'
}

/// No whitespace anywhere in `s`, and at least one character.
pub open spec fn is_word(s: Seq<char>) -> bool {
    &&& s.len() > 0
    &&& forall|i: int| 0 <= i < s.len() ==> !is_space(#[trigger] s[i])
}

/// `s` ends inside a field: its last character is there and is no whitespace.
pub open spec fn in_field(s: Seq<char>) -> bool {
    s.len() > 0 && !is_space(s.last())
}

/// The fields of `s`, in order: its longest runs of characters that are no whitespace.
///
/// A character that is no whitespace starts a field, unless the character before it is in
/// one already: it then belongs to that field.
pub open spec fn fields(s: Seq<char>) -> Seq<Seq<char>>
    decreases s.len(),
{
    if s.len() == 0 {
        Seq::empty()
    } else {
        let before = fields(s.drop_last());
        if !in_field(s) {
            before
        } else if in_field(s.drop_last()) {
            before.drop_last().push(before.last().push(s.last()))
        } else {
            before.push(seq![s.last()])
        }
    }
}

/// What stands between the occurrences of `at` in `s`, before the first and after the last.
pub open spec fn pieces(s: Seq<char>, at: char) -> Seq<Seq<char>>
    decreases s.len(),
{
    if s.len() == 0 {
        seq![Seq::empty()]
    } else {
        let before = pieces(s.drop_last(), at);
        if s.last() == at {
            before.push(Seq::empty())
        } else {
            before.drop_last().push(before.last().push(s.last()))
        }
    }
}

/// `s` without one carriage return at its end, if it has one there.
pub open spec fn without_return(s: Seq<char>) -> Seq<char> {
    if s.len() > 0 && s.last() == '\r' {
        s.drop_last()
    } else {
        s
    }
}

/// The lines of `s`, in order. A line ends in a line feed or in a carriage return and a
/// line feed, which are no part of it; the last line may do without either.
pub open spec fn lines(s: Seq<char>) -> Seq<Seq<char>> {
    let p = pieces(s, '\n');
    let ended = Seq::new((p.len() - 1) as nat, |i: int| without_return(p[i]));
    if p.last().len() == 0 {
        ended
    } else {
        ended.push(p.last())
    }
}

/// `s` without the whitespace that it starts with.
pub open spec fn trim_start(s: Seq<char>) -> Seq<char>
    decreases s.len(),
{
    if s.len() > 0 && is_space(s.first()) {
        trim_start(s.drop_first())
    } else {
        s
    }
}

/// `s` without the whitespace that it ends in.
pub open spec fn trim_end(s: Seq<char>) -> Seq<char>
    decreases s.len(),
{
    if s.len() > 0 && is_space(s.last()) {
        trim_end(s.drop_last())
    } else {
        s
    }
}

/// `s` without the whitespace at either end.
pub open spec fn trimmed(s: Seq<char>) -> Seq<char> {
    trim_end(trim_start(s))
}

pub open spec fn is_digit(c: char) -> bool {
    '0' <= c <= '9'
}

/// The number that a sequence of decimal digits writes.
pub open spec fn digits_value(s: Seq<char>) -> nat
    decreases s.len(),
{
    if s.len() == 0 {
        0
    } else {
        10 * digits_value(s.drop_last()) + (s.last() as nat - '0' as nat) as nat
    }
}

pub open spec fn all_digits(s: Seq<char>) -> bool {
    forall|i: int| 0 <= i < s.len() ==> is_digit(#[trigger] s[i])
}

/// `s` without one plus sign at its start, if it has one there.
pub open spec fn without_plus(s: Seq<char>) -> Seq<char> {
    if s.len() > 0 && s[0] == '+' {
        s.drop_first()
    } else {
        s
    }
}

/// The number that `s` writes: one or more decimal digits, after a plus sign or after
/// nothing. `None` for any other text and for a number that is too large.
pub open spec fn number(s: Seq<char>) -> Option<u64> {
    let d = without_plus(s);
    if d.len() > 0 && all_digits(d) && digits_value(d) <= u64::MAX {
        Some(digits_value(d) as u64)
    } else {
        None
    }
}

/// The number in the field at `index`; zero where there is no such field or it holds no number.
pub open spec fn number_at(fields: Seq<Seq<char>>, index: int) -> u64 {
    if 0 <= index < fields.len() {
        match number(fields[index]) {
            Some(n) => n,
            None => 0,
        }
    } else {
        0
    }
}

/// The shortest decimal notation of `n`.
pub open spec fn decimal(n: nat) -> Seq<char>
    decreases n,
{
    if n < 10 {
        seq![('0' as nat + n) as char]
    } else {
        decimal(n / 10).push(('0' as nat + n % 10) as char)
    }
}

pub open spec fn blanks(n: nat) -> Seq<char> {
    Seq::new(n, |i: int| ' ')
}

/// The blanks that bring `s` to `width` characters; none where it has that many.
pub open spec fn padding(s: Seq<char>, width: nat) -> Seq<char> {
    blanks(
        if s.len() < width {
            (width - s.len()) as nat
        } else {
            0
        },
    )
}

/// `s` at the right end of a column of `width` characters.
pub open spec fn flush_right(s: Seq<char>, width: nat) -> Seq<char> {
    padding(s, width) + s
}

/// `s` at the left end of a column of `width` characters.
pub open spec fn flush_left(s: Seq<char>, width: nat) -> Seq<char> {
    s + padding(s, width)
}

/// The texts that a vector of character vectors holds.
pub open spec fn texts(v: Seq<Vec<char>>) -> Seq<Seq<char>> {
    Seq::new(v.len(), |i: int| v[i]@)
}

// ---- reading ----

/// Whether `c` is whitespace.
pub fn is_whitespace(c: char) -> (r: bool)
    ensures
        r == is_space(c),
{
    ('\u{9}' <= c && c <= '\u{d}') || c == ' ' || c == '\u{85}' || c == '\u{a0}' || c
        == '\u{1680}' || ('\u{2000}' <= c && c <= '\u{200a}') || c == '\u{2028}' || c
        == '\u{2029}' || c == '\u{202f}' || c == '\u{205f}' || c == '\u{3000}'
}

/// The characters of `s`.
pub fn chars_of(s: &str) -> (r: Vec<char>)
    ensures
        r@ == s@,
{
    let mut out: Vec<char> = Vec::new();
    for c in it: s.chars()
        invariant
            out@ == it.seq().take(it.index() as int),
            it.seq() == s@,
    {
        out.push(c);
    }
    out
}

/// A copy of the characters in `from..to`.
fn copy_range(s: &[char], from: usize, to: usize) -> (r: Vec<char>)
    requires
        from <= to <= s.len(),
    ensures
        r@ == s@.subrange(from as int, to as int),
{
    let mut out: Vec<char> = Vec::new();
    let mut i: usize = from;
    while i < to
        invariant
            from <= i <= to <= s.len(),
            out@ == s@.subrange(from as int, i as int),
        decreases to - i,
    {
        out.push(s[i]);
        i += 1;
        assert(out@ =~= s@.subrange(from as int, i as int));
    }
    out
}

/// Splits `s` at whitespace.
pub fn split_fields(s: &[char]) -> (r: Vec<Vec<char>>)
    ensures
        texts(r@) == fields(s@),
{
    let mut out: Vec<Vec<char>> = Vec::new();
    let mut start: usize = 0;
    let mut i: usize = 0;
    // `start` is where the field that `i` continues began, and is `i` outside a field.
    while i < s.len()
        invariant
            start <= i <= s.len(),
            forall|k: int| start <= k < i ==> !is_space(#[trigger] s@[k]),
            start == i <==> !in_field(s@.take(i as int)),
            fields(s@.take(i as int)) == if start == i {
                texts(out@)
            } else {
                texts(out@).push(s@.subrange(start as int, i as int))
            },
        decreases s.len() - i,
    {
        let ghost before = s@.take(i as int);
        let ghost after = s@.take(i + 1);
        assert(after.drop_last() =~= before);
        if is_whitespace(s[i]) {
            if start < i {
                let ghost held = out@;
                out.push(copy_range(s, start, i));
                assert(texts(out@) =~= texts(held).push(s@.subrange(start as int, i as int)));
            }
            start = i + 1;
        } else {
            proof {
                let run = s@.subrange(start as int, i + 1);
                assert(run =~= s@.subrange(start as int, i as int).push(s@[i as int]));
                if start == i {
                    assert(run =~= seq![s@[i as int]]);
                } else {
                    assert(fields(before).drop_last() =~= texts(out@));
                }
            }
        }
        i += 1;
    }
    assert(s@.take(i as int) =~= s@);
    if start < i {
        let ghost held = out@;
        out.push(copy_range(s, start, i));
        assert(texts(out@) =~= texts(held).push(s@.subrange(start as int, i as int)));
    }
    out
}

/// Splits `s` at every occurrence of `at`.
pub fn split_pieces(s: &[char], at: char) -> (r: Vec<Vec<char>>)
    ensures
        texts(r@) == pieces(s@, at),
        r.len() >= 1,
{
    let mut out: Vec<Vec<char>> = Vec::new();
    let mut start: usize = 0;
    let mut i: usize = 0;
    assert(s@.subrange(0, 0) =~= Seq::empty());
    assert(texts(out@).push(Seq::empty()) =~= pieces(s@.take(0), at));
    while i < s.len()
        invariant
            start <= i <= s.len(),
            pieces(s@.take(i as int), at) == texts(out@).push(
                s@.subrange(start as int, i as int),
            ),
        decreases s.len() - i,
    {
        let ghost before = s@.take(i as int);
        assert(s@.take(i + 1).drop_last() =~= before);
        if s[i] == at {
            out.push(copy_range(s, start, i));
            start = i + 1;
            assert(texts(out@) =~= pieces(before, at));
            assert(s@.subrange(start as int, i + 1) =~= Seq::empty());
        } else {
            assert(s@.subrange(start as int, i + 1) =~= s@.subrange(start as int, i as int).push(
                s@[i as int],
            ));
            assert(pieces(before, at).drop_last() =~= texts(out@));
        }
        i += 1;
    }
    assert(s@.take(i as int) =~= s@);
    let ghost held = out@;
    out.push(copy_range(s, start, i));
    assert(texts(out@) =~= texts(held).push(s@.subrange(start as int, i as int)));
    out
}

/// Splits `s` into its lines.
pub fn split_lines(s: &[char]) -> (r: Vec<Vec<char>>)
    ensures
        texts(r@) == lines(s@),
{
    let parts = split_pieces(s, '\n');
    let ghost p = pieces(s@, '\n');
    let mut out: Vec<Vec<char>> = Vec::new();
    let mut i: usize = 0;
    while i + 1 < parts.len()
        invariant
            parts.len() >= 1,
            texts(parts@) == p,
            i < parts.len(),
            texts(out@) == Seq::new(i as nat, |k: int| without_return(p[k])),
        decreases parts.len() - i,
    {
        let part = &parts[i];
        assert(part@ == p[i as int]);
        let n: usize = part.len();
        let end: usize = if n > 0 && part[n - 1] == '\r' {
            n - 1
        } else {
            n
        };
        let ghost held = out@;
        out.push(copy_range(part, 0, end));
        proof {
            assert(part@.subrange(0, end as int) =~= without_return(p[i as int]));
            let ended = Seq::new((i + 1) as nat, |k: int| without_return(p[k]));
            assert(texts(out@) =~= texts(held).push(without_return(p[i as int])));
            assert(texts(out@) =~= ended);
        }
        i += 1;
    }
    let last = &parts[i];
    assert(last@ == p.last());
    if last.len() > 0 {
        let ghost held = out@;
        out.push(copy_range(last, 0, last.len()));
        proof {
            assert(last@.subrange(0, last@.len() as int) =~= last@);
            assert(texts(out@) =~= texts(held).push(last@));
        }
    }
    out
}

/// Removes the whitespace at either end of `s`.
pub fn trim(s: &[char]) -> (r: Vec<char>)
    ensures
        r@ == trimmed(s@),
{
    let n: usize = s.len();
    let mut from: usize = 0;
    assert(s@.skip(0) =~= s@);
    while from < n && is_whitespace(s[from])
        invariant
            n == s.len(),
            from <= n,
            trim_start(s@.skip(from as int)) == trim_start(s@),
        decreases n - from,
    {
        assert(s@.skip(from as int).drop_first() =~= s@.skip(from + 1));
        from += 1;
    }
    let ghost rest = s@.skip(from as int);
    assert(trim_start(s@) == rest);
    let mut to: usize = n;
    assert(s@.subrange(from as int, n as int) =~= rest);
    while to > from && is_whitespace(s[to - 1])
        invariant
            n == s.len(),
            from <= to <= n,
            rest == s@.skip(from as int),
            trim_end(s@.subrange(from as int, to as int)) == trim_end(rest),
        decreases to - from,
    {
        assert(s@.subrange(from as int, to as int).drop_last() =~= s@.subrange(
            from as int,
            to - 1,
        ));
        to -= 1;
    }
    assert(trim_end(s@.subrange(from as int, to as int)) == s@.subrange(from as int, to as int));
    copy_range(s, from, to)
}

/// Whether `s` starts with the characters of `key`.
pub fn starts_with(s: &[char], key: &[char]) -> (r: bool)
    ensures
        r == key@.is_prefix_of(s@),
{
    if key.len() > s.len() {
        return false;
    }
    let mut i: usize = 0;
    while i < key.len()
        invariant
            i <= key.len() <= s.len(),
            forall|k: int| 0 <= k < i ==> key@[k] == s@[k],
        decreases key.len() - i,
    {
        if key[i] != s[i] {
            assert(s@.subrange(0, key@.len() as int)[i as int] != key@[i as int]);
            return false;
        }
        i += 1;
    }
    true
}

/// Reads an unsigned decimal number.
pub fn parse_number(s: &[char]) -> (r: Option<u64>)
    ensures
        r == number(s@),
{
    let n: usize = s.len();
    let from: usize = if n > 0 && s[0] == '+' {
        1
    } else {
        0
    };
    let ghost d = without_plus(s@);
    assert(d =~= s@.skip(from as int));
    if from == n {
        return None;
    }
    let mut value: u64 = 0;
    let mut i: usize = from;
    while i < n
        invariant
            n == s.len(),
            from <= i <= n,
            from < n,
            d == s@.skip(from as int),
            d == without_plus(s@),
            all_digits(d.take(i - from)),
            value == digits_value(d.take(i - from)),
        decreases n - i,
    {
        let c = s[i];
        assert(d.take(i - from + 1).drop_last() =~= d.take(i - from));
        if c < '0' || '9' < c {
            assert(!is_digit(d[i - from]));
            return None;
        }
        let digit: u64 = (c as u32 - '0' as u32) as u64;
        if value > (u64::MAX - digit) / 10 {
            proof {
                lemma_longer_is_no_smaller(d, i - from + 1);
            }
            return None;
        }
        value = value * 10 + digit;
        i += 1;
    }
    assert(d.take(i - from) =~= d);
    Some(value)
}

/// Reading digits further never makes the number smaller.
proof fn lemma_longer_is_no_smaller(s: Seq<char>, k: int)
    requires
        0 <= k <= s.len(),
    ensures
        digits_value(s.take(k)) <= digits_value(s),
    decreases s.len() - k,
{
    if k < s.len() {
        assert(s.take(k + 1).drop_last() =~= s.take(k));
        lemma_longer_is_no_smaller(s, k + 1);
    } else {
        assert(s.take(k) =~= s);
    }
}

/// The number in the field at `index`, or zero.
pub fn parse_number_at(fields: &Vec<Vec<char>>, index: usize) -> (r: u64)
    ensures
        r == number_at(texts(fields@), index as int),
{
    if index < fields.len() {
        match parse_number(&fields[index]) {
            Some(n) => n,
            None => 0,
        }
    } else {
        0
    }
}

// ---- writing ----

/// `String::push` appends the character to the string.
pub assume_specification[ String::push ](s: &mut String, c: char)
    ensures
        final(s)@ == old(s)@.push(c),
;

/// The characters of `s` as a string.
pub fn string_of(s: &[char]) -> (r: String)
    ensures
        r@ == s@,
{
    let mut out = String::new();
    let mut i: usize = 0;
    while i < s.len()
        invariant
            i <= s.len(),
            out@ == s@.take(i as int),
        decreases s.len() - i,
    {
        out.push(s[i]);
        i += 1;
        assert(out@ =~= s@.take(i as int));
    }
    assert(s@.take(i as int) =~= s@);
    out
}

/// Appends `n` in decimal notation.
pub fn push_decimal(out: &mut String, n: u64)
    ensures
        final(out)@ == old(out)@ + decimal(n as nat),
    decreases n,
{
    if n >= 10 {
        push_decimal(out, n / 10);
    }
    let digit = (48u8 + (n % 10) as u8) as char;
    out.push(digit);
    assert(out@ =~= old(out)@ + decimal(n as nat));
}

/// Appends `n` blanks.
fn push_blanks(out: &mut String, n: usize)
    ensures
        final(out)@ == old(out)@ + blanks(n as nat),
{
    let mut i: usize = 0;
    assert(out@ =~= old(out)@ + blanks(0));
    while i < n
        invariant
            i <= n,
            out@ == old(out)@ + blanks(i as nat),
        decreases n - i,
    {
        out.push(' ');
        i += 1;
        assert(out@ =~= old(out)@ + blanks(i as nat));
    }
}

/// Appends the blanks that bring `s` to `width` characters.
fn push_padding(out: &mut String, s: &str, width: usize)
    ensures
        final(out)@ == old(out)@ + padding(s@, width as nat),
{
    let used: usize = s.unicode_len();
    push_blanks(
        out,
        if used < width {
            width - used
        } else {
            0
        },
    );
}

/// Appends `s` at the left end of a column of `width` characters.
pub fn push_left(out: &mut String, s: &str, width: usize)
    ensures
        final(out)@ == old(out)@ + flush_left(s@, width as nat),
{
    out.append(s);
    push_padding(out, s, width);
    assert(out@ =~= old(out)@ + flush_left(s@, width as nat));
}

/// Appends `s` at the right end of a column of `width` characters.
pub fn push_right(out: &mut String, s: &str, width: usize)
    ensures
        final(out)@ == old(out)@ + flush_right(s@, width as nat),
{
    push_padding(out, s, width);
    out.append(s);
    assert(out@ =~= old(out)@ + flush_right(s@, width as nat));
}

/// Appends `n` in decimal notation at the right end of a column of `width` characters.
pub fn push_number(out: &mut String, n: u64, width: usize)
    ensures
        final(out)@ == old(out)@ + flush_right(decimal(n as nat), width as nat),
{
    let mut digits = String::new();
    push_decimal(&mut digits, n);
    assert(digits@ =~= decimal(n as nat));
    push_right(out, digits.as_str(), width);
}

// ---- laws ----

/// Decimal notation is one or more digits, which write the number.
pub proof fn law_decimal_is_digits(n: nat)
    ensures
        decimal(n).len() > 0,
        all_digits(decimal(n)),
        digits_value(decimal(n)) == n,
        is_word(decimal(n)),
    decreases n,
{
    reveal_with_fuel(digits_value, 2);
    if n >= 10 {
        law_decimal_is_digits(n / 10);
        assert(decimal(n).drop_last() =~= decimal(n / 10));
    } else {
        assert(decimal(n).drop_last() =~= Seq::empty());
    }
    assert forall|i: int| 0 <= i < decimal(n).len() implies !is_space(#[trigger] decimal(n)[i]) by {
        assert(is_digit(decimal(n)[i]));
    }
}

/// What is written in decimal notation reads back as the same number.
pub proof fn law_number_of_decimal(n: u64)
    ensures
        number(decimal(n as nat)) == Some(n),
{
    law_decimal_is_digits(n as nat);
    assert(is_digit(decimal(n as nat)[0]));
}

/// A text that ends inside a field has one.
proof fn lemma_in_field_has_fields(s: Seq<char>)
    requires
        in_field(s),
    ensures
        fields(s).len() > 0,
{
}

/// Splitting at whitespace: on either side of a whitespace character the fields are those
/// of that side alone.
pub proof fn law_fields_split_at_whitespace(a: Seq<char>, c: char, b: Seq<char>)
    requires
        is_space(c),
    ensures
        fields(a.push(c) + b) == fields(a) + fields(b),
    decreases b.len(),
{
    let s = a.push(c) + b;
    if b.len() == 0 {
        assert(s =~= a.push(c));
        assert(s.drop_last() =~= a);
        assert(fields(a) + fields(b) =~= fields(a));
    } else {
        let rest = b.drop_last();
        assert(s.drop_last() =~= a.push(c) + rest);
        assert(s.last() == b.last());
        law_fields_split_at_whitespace(a, c, rest);
        if rest.len() == 0 {
            assert(s.drop_last() =~= a.push(c));
        } else {
            assert(s.drop_last().last() == rest.last());
        }
        assert(in_field(s.drop_last()) == in_field(rest));
        if in_field(rest) {
            lemma_in_field_has_fields(rest);
            assert((fields(a) + fields(rest)).drop_last() =~= fields(a) + fields(
                rest,
            ).drop_last());
        }
        assert(fields(s) =~= fields(a) + fields(b));
    }
}

/// A word is the only field of itself.
pub proof fn law_word_is_its_own_field(w: Seq<char>)
    requires
        is_word(w),
    ensures
        fields(w) == seq![w],
    decreases w.len(),
{
    let rest = w.drop_last();
    if rest.len() == 0 {
        assert(w =~= seq![w.last()]);
        assert(fields(rest) =~= Seq::empty());
        assert(fields(w) =~= seq![w]);
    } else {
        law_word_is_its_own_field(rest);
        assert(in_field(rest));
        assert(rest.push(w.last()) =~= w);
        assert(fields(w) =~= seq![w]);
    }
}

/// Every field is a word.
pub proof fn law_fields_are_words(s: Seq<char>)
    ensures
        forall|i: int| 0 <= i < fields(s).len() ==> is_word(#[trigger] fields(s)[i]),
    decreases s.len(),
{
    if s.len() > 0 {
        law_fields_are_words(s.drop_last());
        if in_field(s.drop_last()) {
            lemma_in_field_has_fields(s.drop_last());
            assert(is_word(fields(s.drop_last()).last()));
        }
    }
}

/// The words, one blank between each two.
pub open spec fn spaced(words: Seq<Seq<char>>) -> Seq<char>
    decreases words.len(),
{
    if words.len() == 0 {
        Seq::empty()
    } else if words.len() == 1 {
        words[0]
    } else {
        spaced(words.drop_last()).push(' ') + words.last()
    }
}

/// Words with a blank between each two read back as these words.
pub proof fn law_fields_of_spaced(words: Seq<Seq<char>>)
    requires
        forall|i: int| 0 <= i < words.len() ==> is_word(#[trigger] words[i]),
    ensures
        fields(spaced(words)) == words,
    decreases words.len(),
{
    if words.len() == 0 {
        assert(fields(spaced(words)) =~= words);
    } else if words.len() == 1 {
        law_word_is_its_own_field(words[0]);
        assert(seq![words[0]] =~= words);
    } else {
        let rest = words.drop_last();
        law_fields_of_spaced(rest);
        law_fields_split_at_whitespace(spaced(rest), ' ', words.last());
        law_word_is_its_own_field(words.last());
        assert(rest + seq![words.last()] =~= words);
    }
}

/// There is always a piece.
pub proof fn law_some_piece(s: Seq<char>, at: char)
    ensures
        pieces(s, at).len() >= 1,
    decreases s.len(),
{
    if s.len() > 0 {
        law_some_piece(s.drop_last(), at);
    }
}

/// On either side of a separator the pieces are those of that side alone.
pub proof fn law_pieces_split_at_separator(a: Seq<char>, at: char, b: Seq<char>)
    ensures
        pieces(a.push(at) + b, at) == pieces(a, at) + pieces(b, at),
    decreases b.len(),
{
    let s = a.push(at) + b;
    if b.len() == 0 {
        assert(s =~= a.push(at));
        assert(s.drop_last() =~= a);
        assert(pieces(s, at) =~= pieces(a, at) + pieces(b, at));
    } else {
        let rest = b.drop_last();
        assert(s.drop_last() =~= a.push(at) + rest);
        assert(s.last() == b.last());
        law_pieces_split_at_separator(a, at, rest);
        law_some_piece(rest, at);
        assert((pieces(a, at) + pieces(rest, at)).drop_last() =~= pieces(a, at) + pieces(
            rest,
            at,
        ).drop_last());
        assert(pieces(s, at) =~= pieces(a, at) + pieces(b, at));
    }
}

/// A text without the separator is one piece.
pub proof fn law_one_piece_without_separator(s: Seq<char>, at: char)
    requires
        !s.contains(at),
    ensures
        pieces(s, at) == seq![s],
    decreases s.len(),
{
    if s.len() == 0 {
        assert(s =~= Seq::empty());
    } else {
        let rest = s.drop_last();
        assert(s.contains(s.last()));
        assert(!rest.contains(at)) by {
            assert forall|i: int| 0 <= i < rest.len() implies rest[i] != at by {
                assert(s.contains(s[i]));
            }
        }
        law_one_piece_without_separator(rest, at);
        assert(rest.push(s.last()) =~= s);
        assert(pieces(s, at) =~= seq![s]);
    }
}

/// The lines of a text that ends in a line feed are followed by those of what comes after.
pub proof fn law_lines_split_at_line_feed(a: Seq<char>, b: Seq<char>)
    ensures
        lines(a.push('\n') + b) == lines(a.push('\n')) + lines(b),
{
    let n = '\n';
    law_pieces_split_at_separator(a, n, b);
    law_pieces_split_at_separator(a, n, Seq::empty());
    assert(a.push(n) + Seq::<char>::empty() =~= a.push(n));
    law_some_piece(a, n);
    law_some_piece(b, n);
    assert(lines(a.push(n) + b) =~= lines(a.push(n)) + lines(b));
}

/// One line and its line feed.
pub proof fn law_one_line(s: Seq<char>)
    requires
        !s.contains('\n'),
    ensures
        lines(s.push('\n')) == seq![without_return(s)],
{
    let n = '\n';
    law_pieces_split_at_separator(s, n, Seq::empty());
    assert(s.push(n) + Seq::<char>::empty() =~= s.push(n));
    law_one_piece_without_separator(s, n);
    assert(pieces(Seq::empty(), n) =~= seq![Seq::<char>::empty()]);
    assert(lines(s.push(n)) =~= seq![without_return(s)]);
}

/// `from` and `to` bound what is left of `s` without the whitespace at either end.
pub open spec fn bounds_trimmed(s: Seq<char>, from: int, to: int) -> bool {
    &&& 0 <= from <= to <= s.len()
    &&& forall|k: int| 0 <= k < from ==> is_space(#[trigger] s[k])
    &&& forall|k: int| to <= k < s.len() ==> is_space(#[trigger] s[k])
    &&& from < to ==> !is_space(s[from]) && !is_space(s[to - 1])
}

/// Trimming takes whitespace only, and all of it at either end.
pub proof fn law_trimmed_is_the_middle(s: Seq<char>)
    ensures
        exists|from: int, to: int| #[trigger]
            bounds_trimmed(s, from, to) && trimmed(s) == s.subrange(from, to),
{
    let from = lemma_trim_start(s);
    let rest = trim_start(s);
    let len = lemma_trim_end(rest);
    let to = from + len;
    assert forall|k: int| to <= k < s.len() implies is_space(#[trigger] s[k]) by {
        assert(rest[k - from] == s[k]);
    }
    assert(trimmed(s) =~= s.subrange(from, to));
    if from < to {
        assert(rest[0] == s[from]);
        assert(rest[len - 1] == s[to - 1]);
    }
    assert(bounds_trimmed(s, from, to));
}

proof fn lemma_trim_start(s: Seq<char>) -> (from: int)
    ensures
        0 <= from <= s.len(),
        trim_start(s) == s.skip(from),
        forall|k: int| 0 <= k < from ==> is_space(#[trigger] s[k]),
        from < s.len() ==> !is_space(s[from]),
    decreases s.len(),
{
    if s.len() > 0 && is_space(s.first()) {
        let rest = s.drop_first();
        let k = lemma_trim_start(rest);
        assert(rest.skip(k) =~= s.skip(k + 1));
        assert forall|i: int| 0 <= i < k + 1 implies is_space(#[trigger] s[i]) by {
            if i > 0 {
                assert(rest[i - 1] == s[i]);
            }
        }
        k + 1
    } else {
        assert(s.skip(0) =~= s);
        0
    }
}

proof fn lemma_trim_end(s: Seq<char>) -> (to: int)
    ensures
        0 <= to <= s.len(),
        trim_end(s) == s.take(to),
        forall|k: int| to <= k < s.len() ==> is_space(#[trigger] s[k]),
        to > 0 ==> !is_space(s[to - 1]),
    decreases s.len(),
{
    if s.len() > 0 && is_space(s.last()) {
        let rest = s.drop_last();
        let to = lemma_trim_end(rest);
        assert(rest.take(to) =~= s.take(to));
        assert forall|i: int| to <= i < s.len() implies is_space(#[trigger] s[i]) by {
            if i < rest.len() {
                assert(rest[i] == s[i]);
            }
        }
        to
    } else {
        assert(s.take(s.len() as int) =~= s);
        s.len() as int
    }
}

/// A column is as wide as it is meant to be, or as wide as what stands in it.
pub proof fn law_columns_have_their_width(s: Seq<char>, width: nat)
    ensures
        flush_left(s, width).len() == vstd::math::max(s.len() as int, width as int),
        flush_right(s, width).len() == vstd::math::max(s.len() as int, width as int),
{
}

/// A column holds the text unaltered, and otherwise blanks: after it or before it.
pub proof fn law_columns_hold_the_text(s: Seq<char>, width: nat)
    ensures
        s.is_prefix_of(flush_left(s, width)),
        s.is_suffix_of(flush_right(s, width)),
        forall|i: int|
            s.len() <= i < flush_left(s, width).len() ==> #[trigger] flush_left(s, width)[i] == ' ',
        forall|i: int|
            0 <= i < flush_right(s, width).len() - s.len() ==> #[trigger] flush_right(s, width)[i]
                == ' ',
{
    let left = flush_left(s, width);
    let right = flush_right(s, width);
    assert(left.subrange(0, s.len() as int) =~= s);
    assert(right.subrange(right.len() - s.len(), right.len() as int) =~= s);
}

/// Blanks before or after a text add no field to it.
pub proof fn law_blanks_add_no_field(s: Seq<char>, n: nat)
    ensures
        fields(blanks(n) + s) == fields(s),
        fields(s + blanks(n)) == fields(s),
        fields(blanks(n)) == Seq::<Seq<char>>::empty(),
    decreases n,
{
    if n == 0 {
        assert(blanks(0) + s =~= s);
        assert(s + blanks(0) =~= s);
        assert(blanks(0) =~= Seq::empty());
    } else {
        let fewer = (n - 1) as nat;
        law_blanks_add_no_field(s, fewer);
        assert(blanks(n) + s =~= blanks(fewer).push(' ') + s);
        law_fields_split_at_whitespace(blanks(fewer), ' ', s);
        assert(fields(blanks(fewer)) + fields(s) =~= fields(s));
        assert(s + blanks(n) =~= s.push(' ') + blanks(fewer));
        law_fields_split_at_whitespace(s, ' ', blanks(fewer));
        assert(fields(s) + fields(blanks(fewer)) =~= fields(s));
        assert(blanks(n) =~= blanks(fewer).push(' ') + Seq::<char>::empty());
        law_fields_split_at_whitespace(blanks(fewer), ' ', Seq::empty());
    }
}

/// Of a carriage return and a line feed at the end of a line, neither is part of it; only one
/// carriage return is taken.
pub proof fn law_line_ends_in_return_and_feed(s: Seq<char>)
    requires
        !s.contains('\n'),
    ensures
        lines(s.push('\r').push('\n')) == seq![s],
        s.len() == 0 || s.last() != '\r' ==> lines(s.push('\n')) == seq![s],
{
    let r = s.push('\r');
    assert(!r.contains('\n')) by {
        assert forall|i: int| 0 <= i < r.len() implies r[i] != '\n' by {
            if i < s.len() {
                assert(s.contains(s[i]));
            }
        }
    }
    law_one_line(r);
    law_one_line(s);
    assert(r.drop_last() =~= s);
}

/// A text without a line feed is one line as it stands, and no line if it is empty.
pub proof fn law_last_line(s: Seq<char>)
    requires
        !s.contains('\n'),
    ensures
        s.len() > 0 ==> lines(s) == seq![s],
        s.len() == 0 ==> lines(s) == Seq::<Seq<char>>::empty(),
{
    law_one_piece_without_separator(s, '\n');
    if s.len() > 0 {
        assert(lines(s) =~= seq![s]);
    } else {
        assert(lines(s) =~= Seq::empty());
    }
}

/// Decimal notation does not start with a zero, but for zero itself.
pub proof fn law_decimal_has_no_leading_zero(n: nat)
    requires
        n > 0,
    ensures
        decimal(n)[0] != '0',
    decreases n,
{
    law_decimal_is_digits(n);
    if n >= 10 {
        law_decimal_has_no_leading_zero(n / 10);
        law_decimal_is_digits(n / 10);
    }
}

/// One digit reads as its value.
pub proof fn law_number_of_one_digit(c: char)
    requires
        '0' <= c <= '9',
    ensures
        number(seq![c]) == Some((c as u64 - '0' as u64) as u64),
{
    reveal_with_fuel(digits_value, 2);
    let s = seq![c];
    assert(s.drop_last() =~= Seq::empty());
}

/// A digit more makes the number ten times as large and adds the digit, or makes it too
/// large to read.
pub proof fn law_number_goes_digit_by_digit(d: Seq<char>, c: char)
    requires
        d.len() > 0,
        forall|i: int| 0 <= i < d.len() ==> '0' <= #[trigger] d[i] <= '9',
        '0' <= c <= '9',
    ensures
        match number(d) {
            Some(n) => number(d.push(c)) == if 10 * n + (c as int - '0' as int) <= u64::MAX {
                Some((10 * n + (c as int - '0' as int)) as u64)
            } else {
                None
            },
            None => number(d.push(c)) is None,
        },
{
    let s = d.push(c);
    assert(s.drop_last() =~= d);
    assert(s[0] == d[0]);
    assert forall|i: int| 0 <= i < s.len() implies is_digit(#[trigger] s[i]) by {
        if i < d.len() {
            assert(s[i] == d[i]);
        }
    }
    assert(all_digits(d));
}

/// One plus sign before the digits makes no difference.
pub proof fn law_number_allows_one_plus(s: Seq<char>)
    requires
        s.len() > 0,
        s[0] != '+',
    ensures
        number(seq!['+'] + s) == number(s),
{
    assert((seq!['+'] + s).drop_first() =~= s);
}

/// No number is read from an empty text, from a plus sign alone, or where any character is
/// no digit, but for a plus sign at the start.
pub proof fn law_number_is_digits_only(s: Seq<char>, i: int)
    requires
        ({
            ||| s.len() == 0
            ||| s == seq!['+']
            ||| 0 <= i < s.len() && !('0' <= s[i] <= '9') && (i > 0 || s[i] != '+')
        }),
    ensures
        number(s) is None,
{
    if s.len() > 0 && s != seq!['+'] {
        let d = without_plus(s);
        let k = if s[0] == '+' {
            i - 1
        } else {
            i
        };
        assert(d[k] == s[i]);
        assert(!is_digit(d[k]));
    }
}

} // verus!
