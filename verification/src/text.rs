//! Reading of whitespace-separated records: fields and unsigned decimal numbers.

use vstd::prelude::*;
use vstd::string::StrSliceExecFns;
use vstd::string::StringExecFns;

verus! {

/// Whether `c` separates fields: the characters with the Unicode property
/// `White_Space`.
pub open spec fn is_space(c: char) -> bool {
    let u = c as u32;
    ||| 0x09 <= u <= 0x0D
    ||| u == 0x20
    ||| u == 0x85
    ||| u == 0xA0
    ||| u == 0x1680
    ||| 0x2000 <= u <= 0x200A
    ||| u == 0x2028
    ||| u == 0x2029
    ||| u == 0x202F
    ||| u == 0x205F
    ||| u == 0x3000
}

/// Decides `is_space`.
pub fn char_is_space(c: char) -> (r: bool)
    ensures
        r == is_space(c),
{
    let u: u32 = c as u32;
    (0x09 <= u && u <= 0x0D) || u == 0x20 || u == 0x85 || u == 0xA0 || u == 0x1680 || (0x2000 <= u
        && u <= 0x200A) || u == 0x2028 || u == 0x2029 || u == 0x202F || u == 0x205F || u == 0x3000
}

/// The characters of `s`, in order.
pub fn chars_of(s: &str) -> (v: Vec<char>)
    ensures
        v@ == s@,
{
    let mut v: Vec<char> = Vec::new();
    for c in it: s.chars()
        invariant
            v@ == it.seq().take(it.index() as int),
    {
        v.push(c);
    }
    v
}

/// The first position at or after `i` that holds a separator, or the length of
/// `s` if there is none: where the field that holds position `i` ends.
pub open spec fn field_end(s: Seq<char>, i: int) -> int
    decreases s.len() - i,
{
    if 0 <= i < s.len() && !is_space(s[i]) {
        field_end(s, i + 1)
    } else {
        i
    }
}

/// `field_end(s, i)` lies between `i` and the end of `s`, no separator stands
/// before it, and one stands at it unless `s` ends there.
pub proof fn lemma_field_end(s: Seq<char>, i: int)
    requires
        0 <= i <= s.len(),
    ensures
        i <= field_end(s, i) <= s.len(),
        forall|k: int| i <= k < field_end(s, i) ==> !is_space(#[trigger] s[k]),
        field_end(s, i) < s.len() ==> is_space(s[field_end(s, i)]),
        i < s.len() && !is_space(s[i]) ==> i < field_end(s, i),
    decreases s.len() - i,
{
    if i < s.len() && !is_space(s[i]) {
        lemma_field_end(s, i + 1);
    }
}

/// The fields of `s` that start at or after position `i`, in order. A field
/// is a longest run of characters that holds no separator.
pub open spec fn fields_from(s: Seq<char>, i: int) -> Seq<Seq<char>>
    decreases s.len() - i,
{
    if i < 0 || i >= s.len() {
        Seq::empty()
    } else if is_space(s[i]) {
        fields_from(s, i + 1)
    } else {
        proof {
            lemma_field_end(s, i);
        }
        seq![s.subrange(i, field_end(s, i))].add(fields_from(s, field_end(s, i)))
    }
}

/// The fields of a record: its longest runs of characters other than
/// separators, from left to right.
pub open spec fn fields(s: Seq<char>) -> Seq<Seq<char>> {
    fields_from(s, 0)
}

/// The pieces of `s` that the spans cut out; a span is a first position and
/// the position after the last.
pub open spec fn cut(s: Seq<char>, spans: Seq<(usize, usize)>) -> Seq<Seq<char>> {
    Seq::new(spans.len(), |k: int| s.subrange(spans[k].0 as int, spans[k].1 as int))
}

/// Finds the fields of a record, each as the span of positions it fills.
pub fn field_spans(chars: &Vec<char>) -> (spans: Vec<(usize, usize)>)
    ensures
        cut(chars@, spans@) == fields(chars@),
        forall|k: int| 0 <= k < spans.len() ==> (#[trigger] spans[k]).0 < spans[k].1 <= chars.len(),
{
    let n: usize = chars.len();
    let mut spans: Vec<(usize, usize)> = Vec::new();
    let mut i: usize = 0;
    assert(cut(chars@, spans@) =~= Seq::<Seq<char>>::empty());
    while i < n
        invariant
            n == chars.len(),
            i <= n,
            cut(chars@, spans@).add(fields_from(chars@, i as int)) == fields(chars@),
            forall|k: int| 0 <= k < spans.len() ==> (#[trigger] spans[k]).0 < spans[k].1 <= n,
        decreases n - i,
    {
        if char_is_space(chars[i]) {
            i = i + 1;
        } else {
            let start: usize = i;
            while i < n && !char_is_space(chars[i])
                invariant
                    n == chars.len(),
                    start <= i <= n,
                    field_end(chars@, start as int) == field_end(chars@, i as int),
                decreases n - i,
            {
                i = i + 1;
            }
            proof {
                lemma_field_end(chars@, start as int);
                let before = cut(chars@, spans@);
                let after = cut(chars@, spans@.push((start, i)));
                let piece = chars@.subrange(start as int, i as int);
                assert(after =~= before.push(piece));
                assert(before.push(piece).add(fields_from(chars@, i as int)) =~= before.add(
                    seq![piece].add(fields_from(chars@, i as int)),
                ));
            }
            spans.push((start, i));
        }
    }
    assert(cut(chars@, spans@).add(Seq::<Seq<char>>::empty()) =~= cut(chars@, spans@));
    spans
}

/// Whether `c` is one of the ten decimal digits.
pub open spec fn is_digit(c: char) -> bool {
    0x30 <= c as u32 <= 0x39
}

/// The number that the digit `c` stands for.
pub open spec fn digit_value(c: char) -> nat {
    (c as u32 - 0x30) as nat
}

/// The number that a run of decimal digits writes, the empty run writing 0.
pub open spec fn digits_value(s: Seq<char>) -> nat
    decreases s.len(),
{
    if s.len() == 0 {
        0
    } else {
        10 * digits_value(s.drop_last()) + digit_value(s.last())
    }
}

/// Whether every character of `s` is a decimal digit.
pub open spec fn all_digits(s: Seq<char>) -> bool {
    forall|i: int| 0 <= i < s.len() ==> is_digit(#[trigger] s[i])
}

/// The number that `s` writes in decimal, if it writes one that fits in 32
/// bits: one `+` may lead, then at least one digit follows and nothing else.
pub open spec fn unsigned_decimal(s: Seq<char>) -> Option<u32> {
    let body = if s.len() > 0 && s[0] == '+' {
        s.skip(1)
    } else {
        s
    };
    if body.len() > 0 && all_digits(body) && digits_value(body) <= u32::MAX {
        Some(digits_value(body) as u32)
    } else {
        None
    }
}

/// A run of digits writes at least what any of its beginnings writes.
pub proof fn lemma_digits_value_grows(s: Seq<char>, k: int)
    requires
        0 <= k <= s.len(),
    ensures
        digits_value(s.take(k)) <= digits_value(s),
    decreases s.len(),
{
    if k == s.len() {
        assert(s.take(k) =~= s);
    } else {
        assert(s.drop_last().take(k) =~= s.take(k));
        lemma_digits_value_grows(s.drop_last(), k);
    }
}

/// Reads the unsigned decimal number that fills the positions from `from` up
/// to `to`.
pub fn parse_unsigned(chars: &Vec<char>, from: usize, to: usize) -> (r: Option<u32>)
    requires
        from <= to <= chars.len(),
    ensures
        r == unsigned_decimal(chars@.subrange(from as int, to as int)),
{
    let ghost s = chars@.subrange(from as int, to as int);
    let mut i: usize = from;
    if i < to && chars[i] == '+' {
        i = i + 1;
    }
    let first: usize = i;
    let ghost body = chars@.subrange(first as int, to as int);
    assert(body =~= if s.len() > 0 && s[0] == '+' {
        s.skip(1)
    } else {
        s
    });
    if first == to {
        return None;
    }
    let mut acc: u64 = 0;
    while i < to
        invariant
            from <= first <= i <= to <= chars.len(),
            body == chars@.subrange(first as int, to as int),
            body.len() > 0,
            unsigned_decimal(chars@.subrange(from as int, to as int)) == if all_digits(body)
                && digits_value(body) <= u32::MAX {
                Some(digits_value(body) as u32)
            } else {
                None::<u32>
            },
            all_digits(body.take(i - first)),
            acc == digits_value(body.take(i - first)),
            acc <= u32::MAX,
        decreases to - i,
    {
        let u: u32 = chars[i] as u32;
        assert(chars[i as int] == body[i - first]);
        if u < 0x30 || u > 0x39 {
            return None;
        }
        let next: u64 = acc * 10 + (u - 0x30) as u64;
        proof {
            let upto = body.take(i - first + 1);
            assert(upto.drop_last() =~= body.take(i - first));
            assert(upto.last() == body[i - first]);
            assert(next == digits_value(upto));
            assert forall|j: int| 0 <= j < upto.len() implies is_digit(#[trigger] upto[j]) by {
                if j < i - first {
                    assert(upto[j] == body.take(i - first)[j]);
                }
            }
            lemma_digits_value_grows(body, i - first + 1);
        }
        if next > 0xFFFF_FFFF {
            return None;
        }
        acc = next;
        i = i + 1;
    }
    assert(body.take(to - first) =~= body);
    Some(acc as u32)
}

/// What each of `lines` holds, as sequences of characters.
pub open spec fn texts(lines: Seq<String>) -> Seq<Seq<char>> {
    Seq::new(lines.len(), |i: int| lines[i]@)
}

/// The characters of `s` from position `from` up to position `to`, as a text
/// of their own.
pub fn piece(s: &str, from: usize, to: usize) -> (r: String)
    requires
        from <= to <= s@.len(),
    ensures
        r@ == s@.subrange(from as int, to as int),
{
    s.substring_char(from, to).to_owned()
}

/// The digit that stands for `d`, a number below ten.
pub open spec fn digit_char(d: nat) -> char {
    if d == 0 {
        '0'
    } else if d == 1 {
        '1'
    } else if d == 2 {
        '2'
    } else if d == 3 {
        '3'
    } else if d == 4 {
        '4'
    } else if d == 5 {
        '5'
    } else if d == 6 {
        '6'
    } else if d == 7 {
        '7'
    } else if d == 8 {
        '8'
    } else {
        '9'
    }
}

/// The digits that write `n` in decimal: no sign, and no zero in front
/// unless `n` is 0.
pub open spec fn decimal(n: nat) -> Seq<char>
    decreases n,
{
    if n < 10 {
        seq![digit_char(n)]
    } else {
        decimal(n / 10).push(digit_char(n % 10))
    }
}

/// What `decimal` writes is read back as the number that was written; it
/// holds digits only, and at least one.
pub proof fn lemma_decimal_reads_back(n: nat)
    ensures
        decimal(n).len() > 0,
        all_digits(decimal(n)),
        digits_value(decimal(n)) == n,
        n <= u32::MAX ==> unsigned_decimal(decimal(n)) == Some(n as u32),
    decreases n,
{
    let s = decimal(n);
    if n < 10 {
        assert(s.drop_last() =~= Seq::<char>::empty());
        assert(digits_value(s.drop_last()) == 0);
    } else {
        lemma_decimal_reads_back(n / 10);
        assert(s.drop_last() =~= decimal(n / 10));
        assert(s.last() == digit_char(n % 10));
        assert forall|i: int| 0 <= i < s.len() implies is_digit(#[trigger] s[i]) by {
            if i < s.len() - 1 {
                assert(s[i] == decimal(n / 10)[i]);
            }
        }
    }
    assert(s[0] != '+');
}

/// The text of the one digit that stands for `d`.
fn digit_text(d: u32) -> (r: &'static str)
    requires
        d < 10,
    ensures
        r@ == seq![digit_char(d as nat)],
{
    proof {
        reveal_strlit("0");
        reveal_strlit("1");
        reveal_strlit("2");
        reveal_strlit("3");
        reveal_strlit("4");
        reveal_strlit("5");
        reveal_strlit("6");
        reveal_strlit("7");
        reveal_strlit("8");
        reveal_strlit("9");
    }
    let r = if d == 0 {
        "0"
    } else if d == 1 {
        "1"
    } else if d == 2 {
        "2"
    } else if d == 3 {
        "3"
    } else if d == 4 {
        "4"
    } else if d == 5 {
        "5"
    } else if d == 6 {
        "6"
    } else if d == 7 {
        "7"
    } else if d == 8 {
        "8"
    } else {
        "9"
    };
    assert(r@ =~= seq![digit_char(d as nat)]);
    r
}

/// Writes `n` in decimal.
pub fn write_unsigned(n: u32) -> (r: String)
    ensures
        r@ == decimal(n as nat),
    decreases n,
{
    if n < 10 {
        digit_text(n).to_owned()
    } else {
        let mut r = write_unsigned(n / 10);
        r.append(digit_text(n % 10));
        assert(r@ =~= decimal(n as nat));
        r
    }
}

/// Whether `w` can stand as one field: it holds a character, and no
/// separator.
pub open spec fn is_word(w: Seq<char>) -> bool {
    w.len() > 0 && forall|i: int| 0 <= i < w.len() ==> !is_space(#[trigger] w[i])
}

/// What is put in front of a text moves the ends of its fields, and nothing
/// else.
pub proof fn lemma_field_end_after(front: Seq<char>, s: Seq<char>, i: int)
    requires
        0 <= i <= s.len(),
    ensures
        field_end(front + s, front.len() + i) == front.len() + field_end(s, i),
    decreases s.len() - i,
{
    if i < s.len() {
        assert((front + s)[front.len() + i] == s[i]);
        if !is_space(s[i]) {
            lemma_field_end_after(front, s, i + 1);
        }
    }
}

/// The fields of a text that follows another are its own fields.
pub proof fn lemma_fields_after(front: Seq<char>, s: Seq<char>, i: int)
    requires
        0 <= i <= s.len(),
    ensures
        fields_from(front + s, front.len() + i) == fields_from(s, i),
    decreases s.len() - i,
{
    if i < s.len() {
        assert((front + s)[front.len() + i] == s[i]);
        if is_space(s[i]) {
            lemma_fields_after(front, s, i + 1);
        } else {
            lemma_field_end(s, i);
            lemma_field_end_after(front, s, i);
            let e = field_end(s, i);
            assert((front + s).subrange(front.len() + i, front.len() + e) =~= s.subrange(i, e));
            lemma_fields_after(front, s, e);
        }
    }
}

/// A word that is followed by a separator is the first field, and the
/// fields of what follows the separator are the others.
pub proof fn lemma_fields_of_word_then(w: Seq<char>, sep: char, rest: Seq<char>)
    requires
        is_word(w),
        is_space(sep),
    ensures
        fields(w + seq![sep] + rest) == seq![w] + fields(rest),
{
    let front = w + seq![sep];
    let s = front + rest;
    let n = w.len() as int;
    assert forall|i: int| 0 <= i < n implies !is_space(#[trigger] s[i]) by {
        assert(s[i] == w[i]);
    }
    assert(s[n] == sep);
    lemma_word_ends(s, n, 0);
    assert(s.subrange(0, n) =~= w);
    assert(fields_from(s, 0) == seq![w].add(fields_from(s, n)));
    assert(fields_from(s, n) == fields_from(s, n + 1));
    lemma_fields_after(front, rest, 0);
    assert(front.len() == n + 1);
}

/// The text of six words, each but the last followed by `sep` and the last by
/// `end`, has the six words for its fields.
pub proof fn lemma_fields_of_six_words(w: Seq<Seq<char>>, sep: char, end: char)
    requires
        w.len() == 6,
        forall|i: int| 0 <= i < 6 ==> is_word(#[trigger] w[i]),
        is_space(sep),
        is_space(end),
    ensures
        fields(
            w[0] + seq![sep] + w[1] + seq![sep] + w[2] + seq![sep] + w[3] + seq![sep] + w[4]
                + seq![sep] + w[5] + seq![end],
        ) == w,
{
    let none = Seq::<char>::empty();
    let r5 = w[5] + seq![end] + none;
    let r4 = w[4] + seq![sep] + r5;
    let r3 = w[3] + seq![sep] + r4;
    let r2 = w[2] + seq![sep] + r3;
    let r1 = w[1] + seq![sep] + r2;
    let r0 = w[0] + seq![sep] + r1;
    assert(fields(none) =~= Seq::<Seq<char>>::empty());
    assert(fields(r5) =~= seq![w[5]]) by {
        lemma_fields_of_word_then(w[5], end, none);
    }
    assert(fields(r4) =~= seq![w[4], w[5]]) by {
        lemma_fields_of_word_then(w[4], sep, r5);
    }
    assert(fields(r3) =~= seq![w[3], w[4], w[5]]) by {
        lemma_fields_of_word_then(w[3], sep, r4);
    }
    assert(fields(r2) =~= seq![w[2], w[3], w[4], w[5]]) by {
        lemma_fields_of_word_then(w[2], sep, r3);
    }
    assert(fields(r1) =~= seq![w[1], w[2], w[3], w[4], w[5]]) by {
        lemma_fields_of_word_then(w[1], sep, r2);
    }
    assert(fields(r0) =~= w) by {
        lemma_fields_of_word_then(w[0], sep, r1);
    }
    assert(r0 =~= w[0] + seq![sep] + w[1] + seq![sep] + w[2] + seq![sep] + w[3] + seq![sep] + w[4]
        + seq![sep] + w[5] + seq![end]);
}

/// Where no separator stands before position `n` and one stands at it, the
/// field that holds a position up to `n` ends at `n`.
pub proof fn lemma_word_ends(s: Seq<char>, n: int, k: int)
    requires
        0 <= k <= n < s.len(),
        forall|i: int| 0 <= i < n ==> !is_space(#[trigger] s[i]),
        is_space(s[n]),
    ensures
        field_end(s, k) == n,
    decreases n - k,
{
    if k < n {
        lemma_word_ends(s, n, k + 1);
    }
}

/// What `decimal` writes can stand as one field.
pub proof fn lemma_decimal_is_word(n: nat)
    ensures
        is_word(decimal(n)),
{
    lemma_decimal_reads_back(n);
    assert forall|i: int| 0 <= i < decimal(n).len() implies !is_space(#[trigger] decimal(n)[i]) by {
        assert(is_digit(decimal(n)[i]));
    }
}

} // verus!
