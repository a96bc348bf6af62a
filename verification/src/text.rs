//! Text primitives of the wire form: canonical decimal numerals and
//! space-separated fields.

use vstd::prelude::*;
use vstd::string::*;
use vstd::utf8::is_ascii_chars;

verus! {

/// The character that writes the digit `d`.
pub open spec fn digit_char(d: int) -> char {
    ((d + 48) as u8) as char
}

/// Whether `c` is one of the ten decimal digits.
pub open spec fn is_digit(c: char) -> bool {
    '0' <= c <= '9'
}

/// The digit that `c` writes.
pub open spec fn digit_value(c: char) -> int {
    c as int - 48
}

/// The decimal numeral of `n`, without leading zeros.
pub open spec fn decimal(n: nat) -> Seq<char>
    decreases n,
{
    if n < 10 {
        seq![digit_char(n as int)]
    } else {
        decimal(n / 10).push(digit_char((n % 10) as int))
    }
}

/// The numeral of `i`: a minus sign before the numeral of a negative number's magnitude.
pub open spec fn signed_decimal(i: int) -> Seq<char> {
    if i < 0 {
        seq!['-'] + decimal((-i) as nat)
    } else {
        decimal(i as nat)
    }
}

/// The number that a sequence of digits writes.
pub open spec fn decimal_value(t: Seq<char>) -> nat
    decreases t.len(),
{
    if t.len() == 0 {
        0
    } else {
        decimal_value(t.drop_last()) * 10 + digit_value(t.last()) as nat
    }
}

/// Whether every character of `t` is a digit.
pub open spec fn all_digits(t: Seq<char>) -> bool {
    forall|i: int| 0 <= i < t.len() ==> is_digit(#[trigger] t[i])
}

/// Whether `t` is a numeral as `decimal` writes it: digits only, at least one,
/// and no leading zero before another digit.
pub open spec fn is_decimal(t: Seq<char>) -> bool {
    &&& t.len() >= 1
    &&& all_digits(t)
    &&& (t.len() == 1 || t[0] != '0')
}

/// Whether `t` is a numeral as `signed_decimal` writes it.
pub open spec fn is_signed_decimal(t: Seq<char>) -> bool {
    ||| is_decimal(t)
    ||| (t.len() >= 2 && t[0] == '-' && t[1] != '0' && is_decimal(t.skip(1)))
}

/// The number that a signed numeral writes.
pub open spec fn signed_value(t: Seq<char>) -> int {
    if t.len() >= 1 && t[0] == '-' {
        -(decimal_value(t.skip(1)) as int)
    } else {
        decimal_value(t) as int
    }
}

/// Whether `t` holds no space.
pub open spec fn no_space(t: Seq<char>) -> bool {
    forall|i: int| 0 <= i < t.len() ==> #[trigger] t[i] != ' '
}

/// The fields of `s`: the stretches between its spaces, in order. A text
/// with `k` spaces has `k + 1` fields, some of which may be empty.
pub open spec fn split(s: Seq<char>) -> Seq<Seq<char>>
    decreases s.len(),
{
    if s.len() == 0 {
        seq![Seq::<char>::empty()]
    } else {
        let head = split(s.drop_last());
        if s.last() == ' ' {
            head.push(Seq::<char>::empty())
        } else {
            head.drop_last().push(head.last().push(s.last()))
        }
    }
}

/// The fields `ts` written one after the other with a single space between neighbours.
pub open spec fn join(ts: Seq<Seq<char>>) -> Seq<char>
    decreases ts.len(),
{
    if ts.len() == 0 {
        Seq::<char>::empty()
    } else if ts.len() == 1 {
        ts[0]
    } else {
        join(ts.drop_last()) + seq![' '] + ts.last()
    }
}

/// A numeral consists of digits, so it is ASCII and holds no space.
pub proof fn lemma_decimal_digits(n: nat)
    ensures
        decimal(n).len() >= 1,
        all_digits(decimal(n)),
        no_space(decimal(n)),
        is_ascii_chars(decimal(n)),
    decreases n,
{
    if n >= 10 {
        lemma_decimal_digits(n / 10);
    }
}

/// The numeral of a number below ten is one digit; a longer numeral starts
/// with a digit other than zero.
proof fn lemma_decimal_head(n: nat)
    ensures
        decimal(n).len() >= 1,
        n < 10 ==> decimal(n).len() == 1,
        n > 0 ==> decimal(n)[0] != '0',
        n >= 10 ==> decimal(n).len() >= 2,
    decreases n,
{
    if n >= 10 {
        lemma_decimal_head(n / 10);
    }
}

/// Reading a numeral gives the number back.
pub proof fn lemma_decimal_value(n: nat)
    ensures
        is_decimal(decimal(n)),
        decimal_value(decimal(n)) == n,
    decreases n,
{
    lemma_decimal_digits(n);
    lemma_decimal_head(n);
    if n < 10 {
        assert(decimal(n).drop_last() =~= Seq::<char>::empty());
        assert(decimal_value(decimal(n).drop_last()) == 0);
    } else {
        lemma_decimal_value(n / 10);
        assert(decimal(n).drop_last() =~= decimal(n / 10));
    }
}

/// A sequence of digits whose first digit is not zero writes a positive number.
proof fn lemma_value_positive(t: Seq<char>)
    requires
        t.len() >= 1,
        all_digits(t),
        t[0] != '0',
    ensures
        decimal_value(t) >= 1,
    decreases t.len(),
{
    if t.len() == 1 {
        assert(t.drop_last() =~= Seq::<char>::empty());
        assert(decimal_value(t.drop_last()) == 0);
        assert(is_digit(t[0]));
    } else {
        let head = t.drop_last();
        assert(forall|i: int| 0 <= i < head.len() ==> head[i] == t[i]);
        lemma_value_positive(head);
        assert(is_digit(t.last()));
    }
}

/// A numeral is the only way to write its number.
pub proof fn lemma_decimal_unique(t: Seq<char>)
    requires
        is_decimal(t),
    ensures
        decimal(decimal_value(t)) == t,
    decreases t.len(),
{
    assert(is_digit(t.last()));
    if t.len() == 1 {
        assert(t.drop_last() =~= Seq::<char>::empty());
        assert(decimal_value(t.drop_last()) == 0);
        assert(decimal(decimal_value(t)) =~= t);
    } else {
        let head = t.drop_last();
        assert(forall|i: int| 0 <= i < head.len() ==> head[i] == t[i]);
        lemma_decimal_unique(head);
        lemma_value_positive(head);
        let v = decimal_value(t);
        let d = digit_value(t.last());
        assert(v == decimal_value(head) * 10 + d);
        assert(v / 10 == decimal_value(head) && v % 10 == d);
        assert(decimal(v) =~= t);
    }
}

/// Reading a signed numeral gives the number back.
pub proof fn lemma_signed_value(i: int)
    ensures
        is_signed_decimal(signed_decimal(i)),
        signed_value(signed_decimal(i)) == i,
        no_space(signed_decimal(i)),
        is_ascii_chars(signed_decimal(i)),
{
    if i < 0 {
        let m = (-i) as nat;
        lemma_decimal_value(m);
        lemma_decimal_digits(m);
        lemma_decimal_head(m);
        assert(signed_decimal(i).skip(1) =~= decimal(m));
    } else {
        lemma_decimal_value(i as nat);
        lemma_decimal_digits(i as nat);
        assert(is_digit(decimal(i as nat)[0]));
    }
}

/// A signed numeral is the only way to write its number.
pub proof fn lemma_signed_unique(t: Seq<char>)
    requires
        is_signed_decimal(t),
    ensures
        signed_decimal(signed_value(t)) == t,
{
    if is_decimal(t) {
        assert(is_digit(t[0]));
        lemma_decimal_unique(t);
    } else {
        let body = t.skip(1);
        assert(body[0] == t[1]);
        lemma_decimal_unique(body);
        lemma_value_positive(body);
        assert(signed_decimal(signed_value(t)) =~= t);
    }
}

/// Every text has at least one field.
pub proof fn lemma_split_nonempty(s: Seq<char>)
    ensures
        split(s).len() >= 1,
    decreases s.len(),
{
    if s.len() > 0 {
        lemma_split_nonempty(s.drop_last());
    }
}

/// Joining the fields of a text gives the text back.
pub proof fn lemma_join_split(s: Seq<char>)
    ensures
        join(split(s)) == s,
    decreases s.len(),
{
    if s.len() == 0 {
        assert(join(split(s)) =~= s);
    } else {
        let head = split(s.drop_last());
        lemma_split_nonempty(s.drop_last());
        lemma_join_split(s.drop_last());
        if s.last() == ' ' {
            let ts = head.push(Seq::<char>::empty());
            assert(ts.drop_last() =~= head);
            assert(join(ts) =~= s);
        } else {
            let ts = head.drop_last().push(head.last().push(s.last()));
            if head.len() == 1 {
                assert(join(ts) =~= s);
            } else {
                assert(ts.drop_last() =~= head.drop_last());
                assert(ts.last() == head.last().push(s.last()));
                assert(join(head) == join(head.drop_last()) + seq![' '] + head.last());
                assert(join(ts) == join(head.drop_last()) + seq![' '] + ts.last());
                assert(join(ts) =~= join(head).push(s.last()));
                assert(join(ts) =~= s);
            }
        }
    }
}

/// Text without a space, written after `s`, lengthens the last field of `s`.
pub proof fn lemma_split_append(s: Seq<char>, t: Seq<char>)
    requires
        no_space(t),
    ensures
        split(s).len() >= 1,
        split(s + t) == split(s).drop_last().push(split(s).last() + t),
    decreases t.len(),
{
    lemma_split_nonempty(s);
    if t.len() == 0 {
        assert(s + t =~= s);
        assert(split(s).last() + t =~= split(s).last());
        assert(split(s).drop_last().push(split(s).last()) =~= split(s));
    } else {
        let t0 = t.drop_last();
        assert(forall|i: int| 0 <= i < t0.len() ==> t0[i] == t[i]);
        lemma_split_append(s, t0);
        assert((s + t).drop_last() =~= s + t0);
        assert((s + t).last() == t.last());
        let h = split(s + t0);
        assert(h.drop_last() =~= split(s).drop_last());
        assert(h.last().push(t.last()) =~= split(s).last() + t);
    }
}

/// The fields of joined fields are those fields, where none of them holds a space.
pub proof fn lemma_split_join(ts: Seq<Seq<char>>)
    requires
        ts.len() >= 1,
        forall|i: int| 0 <= i < ts.len() ==> no_space(#[trigger] ts[i]),
    ensures
        split(join(ts)) == ts,
    decreases ts.len(),
{
    let empty = Seq::<char>::empty();
    if ts.len() == 1 {
        lemma_split_append(empty, ts[0]);
        assert(empty + ts[0] =~= ts[0]);
        assert(split(empty) =~= seq![empty]);
        assert(split(join(ts)) =~= ts);
    } else {
        let front = ts.drop_last();
        assert(forall|i: int| 0 <= i < front.len() ==> front[i] == ts[i]);
        lemma_split_join(front);
        let j = join(front);
        let js = j + seq![' '];
        assert(js.drop_last() =~= j);
        assert(split(js) == front.push(empty));
        lemma_split_append(js, ts.last());
        assert(front.push(empty).drop_last() =~= front);
        assert(empty + ts.last() =~= ts.last());
        assert(front.push(ts.last()) =~= ts);
    }
}

/// One more field is written after a space.
pub proof fn lemma_join_push(ts: Seq<Seq<char>>, t: Seq<char>)
    requires
        ts.len() >= 1,
    ensures
        join(ts.push(t)) == join(ts) + seq![' '] + t,
{
    assert(ts.push(t).drop_last() =~= ts);
}

/// Joined ASCII fields are ASCII.
pub proof fn lemma_join_ascii(ts: Seq<Seq<char>>)
    requires
        forall|i: int| 0 <= i < ts.len() ==> is_ascii_chars(#[trigger] ts[i]),
    ensures
        is_ascii_chars(join(ts)),
    decreases ts.len(),
{
    if ts.len() >= 2 {
        let front = ts.drop_last();
        assert(forall|i: int| 0 <= i < front.len() ==> front[i] == ts[i]);
        lemma_join_ascii(front);
        assert(is_ascii_chars(ts.last()));
    } else if ts.len() == 1 {
        assert(is_ascii_chars(ts[0]));
    }
}

/// A prefix of a sequence of digits writes no larger a number than the whole.
proof fn lemma_value_prefix(t: Seq<char>, k: int)
    requires
        all_digits(t),
        0 <= k <= t.len(),
    ensures
        decimal_value(t.take(k)) <= decimal_value(t),
    decreases t.len(),
{
    if k == t.len() {
        assert(t.take(k) =~= t);
    } else {
        let head = t.drop_last();
        assert(forall|i: int| 0 <= i < head.len() ==> head[i] == t[i]);
        lemma_value_prefix(head, k);
        assert(head.take(k) =~= t.take(k));
        assert(is_digit(t.last()));
    }
}

/// The character at position `i` of an ASCII text.
pub fn char_at(s: &str, i: usize) -> (c: char)
    requires
        s.is_ascii(),
        i < s@.len(),
    ensures
        c == s@[i as int],
{
    let b = s.get_ascii(i);
    b as char
}

/// The number of characters of an ASCII text.
pub fn ascii_len(s: &str) -> (n: usize)
    requires
        s.is_ascii(),
    ensures
        n == s@.len(),
{
    proof {
        is_ascii_spec_bytes(s);
    }
    s.as_bytes().len()
}

/// The one-character text of the digit `d`.
fn digit_str(d: u64) -> (s: &'static str)
    requires
        d < 10,
    ensures
        s@ == seq![digit_char(d as int)],
{
    proof {
        reveal_strlit("0");
        reveal_strlit("1");
        reveal_strlit("2");
        reveal_strlit("3");
        reveal_strlit("4");
        reveal_strlit("5");
        reveal_strlit("6");
        reveal_strlit("7");
        reveal_strlit("8");
        reveal_strlit("9");
    }
    let s = if d == 0 {
        "0"
    } else if d == 1 {
        "1"
    } else if d == 2 {
        "2"
    } else if d == 3 {
        "3"
    } else if d == 4 {
        "4"
    } else if d == 5 {
        "5"
    } else if d == 6 {
        "6"
    } else if d == 7 {
        "7"
    } else if d == 8 {
        "8"
    } else {
        "9"
    };
    assert(s@ =~= seq![digit_char(d as int)]);
    s
}

/// Writes the numeral of `n` at the end of `out`.
pub fn push_decimal(out: &mut String, n: u64)
    ensures
        final(out)@ == old(out)@ + decimal(n as nat),
    decreases n,
{
    if n >= 10 {
        push_decimal(out, n / 10);
    }
    out.append(digit_str(n % 10));
    assert(out@ =~= old(out)@ + decimal(n as nat));
}

/// Writes the numeral of `i` at the end of `out`.
pub fn push_signed(out: &mut String, i: i64)
    ensures
        final(out)@ == old(out)@ + signed_decimal(i as int),
{
    if i < 0 {
        proof {
            reveal_strlit("-");
        }
        out.append("-");
        let m: u64 = ((-(i + 1)) as u64) + 1;
        push_decimal(out, m);
        assert("-"@ =~= seq!['-']);
        assert(out@ =~= old(out)@ + signed_decimal(i as int));
    } else {
        push_decimal(out, i as u64);
    }
}

/// Reads the characters of `s` from `lo` up to `hi` as a numeral.
///
/// Gives the number where the stretch is a numeral of a number that fits in
/// 64 bits, and nothing otherwise.
pub fn parse_decimal(s: &str, lo: usize, hi: usize) -> (r: Option<u64>)
    requires
        s.is_ascii(),
        lo <= hi <= s@.len(),
    ensures
        match r {
            Some(v) => is_decimal(s@.subrange(lo as int, hi as int)) && decimal_value(
                s@.subrange(lo as int, hi as int),
            ) == v,
            None => !is_decimal(s@.subrange(lo as int, hi as int)) || decimal_value(
                s@.subrange(lo as int, hi as int),
            ) > u64::MAX,
        },
{
    let ghost t = s@.subrange(lo as int, hi as int);
    if lo == hi {
        return None;
    }
    let first = char_at(s, lo);
    if hi - lo > 1 && first == '0' {
        assert(t[0] == '0');
        return None;
    }
    let mut acc: u64 = 0;
    let mut i: usize = lo;
    assert(t.take(0) =~= Seq::<char>::empty());
    while i < hi
        invariant
            s.is_ascii(),
            lo <= i <= hi <= s@.len(),
            lo < hi,
            t == s@.subrange(lo as int, hi as int),
            hi - lo == 1 || t[0] != '0',
            all_digits(t.take(i - lo)),
            acc == decimal_value(t.take(i - lo)),
        decreases hi - i,
    {
        let c = char_at(s, i);
        let ghost k = i - lo;
        assert(t[k] == c);
        assert(t.take(k + 1).drop_last() =~= t.take(k));
        assert(t.take(k + 1).last() == c);
        if !('0' <= c && c <= '9') {
            assert(!is_digit(t[k]));
            return None;
        }
        let d: u64 = ((c as u8) - 48) as u64;
        if acc > (u64::MAX - d) / 10 {
            proof {
                if is_decimal(t) {
                    lemma_value_prefix(t, k + 1);
                }
            }
            return None;
        }
        acc = acc * 10 + d;
        i = i + 1;
    }
    assert(t.take(i - lo) =~= t);
    Some(acc)
}

/// Reads the characters of `s` from `lo` up to `hi` as a signed numeral.
///
/// Gives the number where the stretch is a signed numeral of a number that
/// fits in 64 bits, and nothing otherwise.
pub fn parse_signed(s: &str, lo: usize, hi: usize) -> (r: Option<i64>)
    requires
        s.is_ascii(),
        lo <= hi <= s@.len(),
    ensures
        match r {
            Some(v) => is_signed_decimal(s@.subrange(lo as int, hi as int)) && signed_value(
                s@.subrange(lo as int, hi as int),
            ) == v,
            None => !is_signed_decimal(s@.subrange(lo as int, hi as int)) || !(i64::MIN
                <= signed_value(s@.subrange(lo as int, hi as int)) <= i64::MAX),
        },
{
    let ghost t = s@.subrange(lo as int, hi as int);
    if lo < hi && char_at(s, lo) == '-' {
        assert(t[0] == '-');
        assert(!is_digit(t[0]));
        if hi - lo < 2 {
            return None;
        }
        if char_at(s, lo + 1) == '0' {
            assert(t[1] == '0');
            return None;
        }
        assert(t.skip(1) =~= s@.subrange(lo + 1, hi as int));
        match parse_decimal(s, lo + 1, hi) {
            None => None,
            Some(m) => {
                if m > 0x8000_0000_0000_0000u64 {
                    None
                } else if m == 0x8000_0000_0000_0000u64 {
                    Some(i64::MIN)
                } else {
                    Some(-(m as i64))
                }
            },
        }
    } else {
        proof {
            if t.len() >= 1 {
                assert(t[0] == s@[lo as int]);
            }
        }
        match parse_decimal(s, lo, hi) {
            None => None,
            Some(m) => {
                if m > 0x7fff_ffff_ffff_ffffu64 {
                    None
                } else {
                    Some(m as i64)
                }
            },
        }
    }
}

/// Whether the spans `spans` cut the text `s` into its fields.
pub open spec fn spans_cut(spans: Seq<(usize, usize)>, s: Seq<char>) -> bool {
    &&& spans.len() == split(s).len()
    &&& forall|j: int|
        0 <= j < spans.len() ==> {
            &&& (#[trigger] spans[j]).0 <= spans[j].1 <= s.len()
            &&& s.subrange(spans[j].0 as int, spans[j].1 as int) == split(s)[j]
        }
}

/// The fields of an ASCII text, each as the positions where it starts and ends.
pub fn split_fields(s: &str) -> (spans: Vec<(usize, usize)>)
    requires
        s.is_ascii(),
    ensures
        spans_cut(spans@, s@),
{
    let n = ascii_len(s);
    let mut spans: Vec<(usize, usize)> = Vec::new();
    let mut start: usize = 0;
    let mut i: usize = 0;
    assert(s@.take(0) =~= Seq::<char>::empty());
    assert(s@.subrange(0, 0) =~= Seq::<char>::empty());
    while i < n
        invariant
            s.is_ascii(),
            n == s@.len(),
            start <= i <= n,
            spans@.len() + 1 == split(s@.take(i as int)).len(),
            split(s@.take(i as int)).last() == s@.subrange(start as int, i as int),
            forall|j: int|
                0 <= j < spans@.len() ==> {
                    &&& (#[trigger] spans@[j]).0 <= spans@[j].1 <= i
                    &&& s@.subrange(spans@[j].0 as int, spans@[j].1 as int) == split(
                        s@.take(i as int),
                    )[j]
                },
        decreases n - i,
    {
        let c = char_at(s, i);
        let ghost before = split(s@.take(i as int));
        assert(s@.take(i + 1).drop_last() =~= s@.take(i as int));
        assert(s@.take(i + 1).last() == c);
        if c == ' ' {
            spans.push((start, i));
            start = i + 1;
            assert(s@.subrange(start as int, i + 1) =~= Seq::<char>::empty());
        } else {
            assert(s@.subrange(start as int, i + 1) =~= s@.subrange(start as int, i as int).push(
                c,
            ));
        }
        i = i + 1;
    }
    assert(s@.take(n as int) =~= s@);
    spans.push((start, n));
    spans
}

/// Whether the characters of `s` from `lo` up to `hi` spell `word`.
pub fn span_is(s: &str, lo: usize, hi: usize, word: &str) -> (r: bool)
    requires
        s.is_ascii(),
        word.is_ascii(),
        lo <= hi <= s@.len(),
    ensures
        r == (s@.subrange(lo as int, hi as int) == word@),
{
    let n = ascii_len(word);
    if hi - lo != n {
        return false;
    }
    let ghost t = s@.subrange(lo as int, hi as int);
    let mut i: usize = 0;
    while i < n
        invariant
            s.is_ascii(),
            word.is_ascii(),
            lo <= hi <= s@.len(),
            hi - lo == n,
            n == word@.len(),
            i <= n,
            t == s@.subrange(lo as int, hi as int),
            forall|j: int| 0 <= j < i ==> t[j] == word@[j],
        decreases n - i,
    {
        if char_at(s, lo + i) != char_at(word, i) {
            assert(t[i as int] != word@[i as int]);
            return false;
        }
        i = i + 1;
    }
    assert(t =~= word@);
    true
}

} // verus!
