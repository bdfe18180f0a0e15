//! The high-score text format: numbers written in decimal and separated by
//! single spaces, the high scores on the first line and the cleared-row
//! counts on the second.
use vstd::prelude::*;

verus! {

/// The decimal digit character for `d` (0 to 9).
pub open spec fn digit_char(d: int) -> char {
    (d + 48) as char
}

/// `c` is one of the characters `0` to `9`.
pub open spec fn is_digit(c: char) -> bool {
    48 <= c as int <= 57
}

/// The value of the decimal digit character `c`.
pub open spec fn digit_value(c: char) -> int {
    c as int - 48
}

/// The decimal form of `n`: no sign, no leading zero (`0` for zero).
pub open spec fn decimal(n: nat) -> Seq<char>
    decreases n,
{
    if n < 10 {
        seq![digit_char(n as int)]
    } else {
        decimal(n / 10).push(digit_char((n % 10) as int))
    }
}

/// The numbers `s` in decimal, separated by single spaces.
pub open spec fn join_decimals(s: Seq<u32>) -> Seq<char>
    decreases s.len(),
{
    if s.len() == 0 {
        Seq::empty()
    } else if s.len() == 1 {
        decimal(s[0] as nat)
    } else {
        join_decimals(s.drop_last()) + seq![' '] + decimal(s.last() as nat)
    }
}

/// The pieces of `s` between its spaces, in order: one more than there are
/// spaces, empty ones included.
pub open spec fn split_spaces(s: Seq<char>) -> Seq<Seq<char>>
    decreases s.len(),
{
    if s.len() == 0 {
        seq![Seq::<char>::empty()]
    } else {
        let rest = split_spaces(s.drop_last());
        if s.last() == ' ' {
            rest.push(Seq::<char>::empty())
        } else {
            rest.update(rest.len() - 1, rest.last().push(s.last()))
        }
    }
}

/// Every character of `ds` is a decimal digit.
pub open spec fn all_digits(ds: Seq<char>) -> bool {
    forall|i: int| 0 <= i < ds.len() ==> is_digit(#[trigger] ds[i])
}

/// The number that the decimal digits `ds` stand for (0 for no digit).
pub open spec fn digits_value(ds: Seq<char>) -> nat
    decreases ds.len(),
{
    if ds.len() == 0 {
        0
    } else {
        (digits_value(ds.drop_last()) * 10 + digit_value(ds.last())) as nat
    }
}

/// The digits of `seg`: `seg` without a leading `+`, if it has one.
pub open spec fn unsigned_digits(seg: Seq<char>) -> Seq<char> {
    if seg.len() > 0 && seg[0] == '+' {
        seg.drop_first()
    } else {
        seg
    }
}

/// `seg` read as an unsigned 32-bit number: an optional `+`, then at least one
/// decimal digit and nothing else, for a value that fits in 32 bits.
pub open spec fn parse_u32(seg: Seq<char>) -> Option<u32> {
    let ds = unsigned_digits(seg);
    if ds.len() > 0 && all_digits(ds) && digits_value(ds) <= u32::MAX {
        Some(digits_value(ds) as u32)
    } else {
        None
    }
}

/// The numbers read from the pieces `segs`, in order, those that are not
/// numbers left out.
pub open spec fn parsed_numbers(segs: Seq<Seq<char>>) -> Seq<u32>
    decreases segs.len(),
{
    if segs.len() == 0 {
        Seq::empty()
    } else {
        match parse_u32(segs.last()) {
            Some(v) => parsed_numbers(segs.drop_last()).push(v),
            None => parsed_numbers(segs.drop_last()),
        }
    }
}

/// The numbers of one line: those among its pieces between spaces.
pub open spec fn line_numbers(line: Seq<char>) -> Seq<u32> {
    parsed_numbers(split_spaces(line))
}

/// The decimal digit `d` (0 to 9) as a one-character string.
fn digit_str(d: u32) -> (r: &'static str)
    requires
        d < 10,
    ensures
        r@ == seq![digit_char(d as int)],
{
    proof {
        reveal_strlit("0");
        reveal_strlit("1");
        reveal_strlit("2");
        reveal_strlit("3");
        reveal_strlit("4");
        reveal_strlit("5");
        reveal_strlit("6");
        reveal_strlit("7");
        reveal_strlit("8");
        reveal_strlit("9");
    }
    match d {
        0 => "0",
        1 => "1",
        2 => "2",
        3 => "3",
        4 => "4",
        5 => "5",
        6 => "6",
        7 => "7",
        8 => "8",
        _ => "9",
    }
}

/// Writes `n` in decimal at the end of `s`.
fn push_decimal(s: &mut String, n: u32)
    ensures
        final(s)@ == old(s)@ + decimal(n as nat),
    decreases n,
{
    if n >= 10 {
        push_decimal(s, n / 10);
    }
    s.append(digit_str(n % 10));
}

/// The numbers of `slice` in decimal, separated by single spaces.
pub fn slice_to_string(slice: &[u32]) -> (s: String)
    ensures
        s@ == join_decimals(slice@),
{
    let mut s = String::new();
    let mut i: usize = 0;
    while i < slice.len()
        invariant
            0 <= i <= slice.len(),
            s@ == join_decimals(slice@.take(i as int)),
        decreases slice.len() - i,
    {
        assert(slice@.take(i + 1).drop_last() =~= slice@.take(i as int));
        assert(slice@.take(i + 1).last() == slice@[i as int]);
        let ghost before = s@;
        proof {
            reveal_strlit(" ");
        }
        if i > 0 {
            s.append(" ");
        }
        push_decimal(&mut s, slice[i]);
        proof {
            if i == 0 {
                assert(s@ =~= decimal(slice@[0] as nat));
            } else {
                assert(s@ =~= before + seq![' '] + decimal(slice@[i as int] as nat));
            }
        }
        i += 1;
    }
    assert(slice@.take(i as int) =~= slice@);
    s
}

/// Writes the high scores and the cleared-row counts as two lines of numbers;
/// the writing to disk is switched off, so nothing is saved and the answer is
/// always that saving failed.
pub fn save_highscore_and_lines(highscores: &[u32], num_lines: &[u32]) -> (saved: bool)
    ensures
        !saved,
{
    let _s_highscores = slice_to_string(highscores);
    let _s_num_of_lines = slice_to_string(num_lines);
    false
}

/// The numbers of `line`: its pieces between single spaces that read as
/// unsigned 32-bit numbers (see `parse_u32`), in order; the other pieces are
/// skipped.
pub fn line_to_slice(line: &str) -> (v: Vec<u32>)
    ensures
        v@ == line_numbers(line@),
{
    let mut result: Vec<u32> = Vec::new();
    let mut started = false;
    let mut has_plus = false;
    let mut any_digit = false;
    let mut bad = false;
    let mut value: u32 = 0;
    let n = line.unicode_len();
    let mut i: usize = 0;
    proof {
        assert(line@.take(0) =~= Seq::<char>::empty());
        lemma_digits_empty();
    }
    while i < n
        invariant
            n == line@.len(),
            0 <= i <= n,
            ({
                let segs = split_spaces(line@.take(i as int));
                let cur = segs.last();
                let ds = unsigned_digits(cur);
                &&& segs.len() > 0
                &&& result@ == parsed_numbers(segs.drop_last())
                &&& started == (cur.len() > 0)
                &&& has_plus == (cur.len() > 0 && cur[0] == '+')
                &&& any_digit == (ds.len() > 0)
                &&& bad == !(all_digits(ds) && digits_value(ds) <= u32::MAX)
                &&& !bad ==> value == digits_value(ds)
            }),
        decreases n - i,
    {
        let c = line.get_char(i);
        let ghost pre = line@.take(i as int);
        let ghost segs = split_spaces(pre);
        let ghost cur = segs.last();
        let ghost ds = unsigned_digits(cur);
        proof {
            lemma_split_spaces_nonempty(pre);
            assert(line@.take(i + 1).drop_last() =~= pre);
            assert(line@.take(i + 1).last() == c);
        }
        if c == ' ' {
            proof {
                let segs2 = split_spaces(line@.take(i + 1));
                assert(segs2 == segs.push(Seq::<char>::empty()));
                assert(segs2.drop_last() =~= segs);
            }
            if !bad && any_digit {
                result.push(value);
            }
            started = false;
            has_plus = false;
            any_digit = false;
            bad = false;
            value = 0;
            proof {
                lemma_digits_empty();
            }
        } else {
            let ghost cur2 = cur.push(c);
            proof {
                let segs2 = split_spaces(line@.take(i + 1));
                assert(segs2 == segs.update(segs.len() - 1, cur2));
                assert(segs2.drop_last() =~= segs.drop_last());
                assert(segs2.last() == cur2);
            }
            if !started && c == '+' {
                has_plus = true;
                proof {
                    assert(cur2 =~= seq!['+']);
                    assert(unsigned_digits(cur2) =~= Seq::<char>::empty());
                    lemma_digits_empty();
                }
            } else {
                proof {
                    assert(unsigned_digits(cur2) =~= ds.push(c));
                    lemma_digits_push(ds, c);
                }
                any_digit = true;
                if c >= '0' && c <= '9' {
                    if !bad {
                        let v: u64 = value as u64 * 10 + (c as u64 - 48);
                        if v > 4294967295u64 {
                            bad = true;
                        } else {
                            value = v as u32;
                        }
                    }
                } else {
                    bad = true;
                }
            }
            started = true;
        }
        i += 1;
    }
    proof {
        assert(line@.take(n as int) =~= line@);
        lemma_split_spaces_nonempty(line@);
    }
    if !bad && any_digit {
        result.push(value);
    }
    result
}

/// No digit: all digits, value 0.
proof fn lemma_digits_empty()
    ensures
        all_digits(Seq::<char>::empty()),
        digits_value(Seq::<char>::empty()) == 0,
{
}

/// Appending a character to digits: they stay all digits only if it is one,
/// the value grows tenfold plus its value, and a value past 2^32 - 1 stays past.
proof fn lemma_digits_push(ds: Seq<char>, c: char)
    ensures
        all_digits(ds.push(c)) == (all_digits(ds) && is_digit(c)),
        is_digit(c) ==> digits_value(ds.push(c)) == digits_value(ds) * 10 + digit_value(c),
{
    assert(ds.push(c).drop_last() =~= ds);
    if all_digits(ds) && is_digit(c) {
        assert forall|i: int| 0 <= i < ds.push(c).len() implies is_digit(#[trigger] ds.push(c)[i]) by {
            if i < ds.len() {
                assert(ds.push(c)[i] == ds[i]);
            }
        }
    }
    if all_digits(ds.push(c)) {
        assert(is_digit(ds.push(c)[ds.len() as int]));
        assert forall|i: int| 0 <= i < ds.len() implies is_digit(#[trigger] ds[i]) by {
            assert(ds.push(c)[i] == ds[i]);
        }
    }
}

/// Splitting gives at least one piece.
proof fn lemma_split_spaces_nonempty(s: Seq<char>)
    ensures
        split_spaces(s).len() > 0,
    decreases s.len(),
{
    if s.len() > 0 {
        lemma_split_spaces_nonempty(s.drop_last());
    }
}

/// The position of the first line break in `s`, if any.
pub open spec fn first_newline(s: Seq<char>) -> Option<int>
    decreases s.len(),
{
    if s.len() == 0 {
        None
    } else {
        match first_newline(s.drop_last()) {
            Some(k) => Some(k),
            None => if s.last() == '\n' {
                Some(s.len() - 1)
            } else {
                None
            },
        }
    }
}

/// The high scores and cleared-row counts in the text `content`: the numbers
/// before its first line break, and those after it (further line breaks stay
/// in the second part). A text without a line break holds none.
pub open spec fn high_scores_of(content: Seq<char>) -> Option<(Seq<u32>, Seq<u32>)> {
    match first_newline(content) {
        Some(k) => Some((line_numbers(content.take(k)), line_numbers(content.skip(k + 1)))),
        None => None,
    }
}

/// Reads the high scores and the cleared-row counts from the text of the
/// score file (see `high_scores_of`).
pub fn load_high_scores(content: &str) -> (r: Option<(Vec<u32>, Vec<u32>)>)
    ensures
        match high_scores_of(content@) {
            Some((highscores, num_lines)) => r matches Some((h, l)) && h@ == highscores && l@
                == num_lines,
            None => r is None,
        },
{
    let n = content.unicode_len();
    let mut i: usize = 0;
    let mut found: Option<usize> = None;
    proof {
        assert(content@.take(0) =~= Seq::<char>::empty());
        if n == 0 {
            assert(content@.take(0) =~= content@);
        }
    }
    while i < n
        invariant_except_break
            found is None,
        invariant
            n == content@.len(),
            0 <= i <= n,
            found is None ==> first_newline(content@.take(i as int)) is None,
            i == n ==> content@.take(i as int) == content@,
        ensures
            match found {
                Some(k) => first_newline(content@) == Some(k as int) && k < n,
                None => first_newline(content@) is None,
            },
        decreases n - i,
    {
        proof {
            assert(content@.take(i + 1).drop_last() =~= content@.take(i as int));
        }
        if content.get_char(i) == '\n' {
            assert(content@.take(i + 1).last() == content@[i as int]);
            assert(first_newline(content@.take(i + 1)) == Some(i as int));
            proof {
                lemma_first_newline_prefix(content@, i + 1);
            }
            found = Some(i);
            break;
        }
        i += 1;
        proof {
            if i == n {
                assert(content@.take(i as int) =~= content@);
            }
        }
    }
    match found {
        Some(k) => {
            let highscores = line_to_slice(content.substring_char(0, k));
            let num_lines = line_to_slice(content.substring_char(k + 1, n));
            proof {
                assert(content@.subrange(0, k as int) =~= content@.take(k as int));
                assert(content@.subrange(k + 1, n as int) =~= content@.skip(k + 1));
            }
            Some((highscores, num_lines))
        },
        None => None,
    }
}

/// A line break found in a prefix is the first of the whole text.
proof fn lemma_first_newline_prefix(s: Seq<char>, i: int)
    requires
        0 <= i <= s.len(),
    ensures
        first_newline(s.take(i)) matches Some(k) ==> first_newline(s) == Some(k) && k < i,
    decreases s.len() - i,
{
    if i < s.len() {
        assert(s.take(i + 1).drop_last() =~= s.take(i));
        lemma_first_newline_prefix(s, i + 1);
    } else {
        assert(s.take(i) =~= s);
    }
    if first_newline(s.take(i)) matches Some(k) {
        lemma_first_newline_bound(s.take(i));
    }
}

/// The first line break lies within the text.
proof fn lemma_first_newline_bound(s: Seq<char>)
    ensures
        first_newline(s) matches Some(k) ==> 0 <= k < s.len() && s[k] == '\n',
    decreases s.len(),
{
    if s.len() > 0 {
        lemma_first_newline_bound(s.drop_last());
    }
}

/// The text `s` holds no character `c`.
pub open spec fn lacks(s: Seq<char>, c: char) -> bool {
    forall|i: int| 0 <= i < s.len() ==> s[i] != c
}

/// A decimal form is a non-empty run of digits, without spaces or line
/// breaks, whose value is the number written.
proof fn lemma_decimal(n: nat)
    ensures
        decimal(n).len() > 0,
        all_digits(decimal(n)),
        digits_value(decimal(n)) == n,
        lacks(decimal(n), ' '),
        lacks(decimal(n), '\n'),
        decimal(n)[0] != '+',
    decreases n,
{
    if n >= 10 {
        lemma_decimal(n / 10);
        let d = decimal(n / 10);
        let c = digit_char((n % 10) as int);
        assert(is_digit(c));
        lemma_digits_push(d, c);
        assert(decimal(n) == d.push(c));
        assert(decimal(n).drop_last() =~= d);
        assert(digits_value(decimal(n)) == (n / 10) * 10 + n % 10);
        assert forall|i: int| 0 <= i < decimal(n).len() implies decimal(n)[i] != ' ' && decimal(n)[i] != '\n' by {
            if i < d.len() {
                assert(decimal(n)[i] == d[i]);
            }
        }
        assert(decimal(n)[0] == d[0]);
    } else {
        let c = digit_char(n as int);
        assert(is_digit(c));
        assert(seq![c].drop_last() =~= Seq::<char>::empty());
        lemma_digits_empty();
        assert(digits_value(seq![c]) == digit_value(c));
    }
}

/// A decimal form reads back as the number written.
proof fn lemma_parse_decimal(n: u32)
    ensures
        parse_u32(decimal(n as nat)) == Some(n),
{
    lemma_decimal(n as nat);
}

/// Text without spaces is a single piece.
proof fn lemma_split_no_space(b: Seq<char>)
    requires
        lacks(b, ' '),
    ensures
        split_spaces(b) == seq![b],
    decreases b.len(),
{
    if b.len() > 0 {
        lemma_split_no_space(b.drop_last());
        assert(b.drop_last().push(b.last()) =~= b);
        assert(seq![b.drop_last()].update(0, b.drop_last().push(b.last())) =~= seq![b]);
    } else {
        assert(b =~= Seq::<char>::empty());
    }
}

/// A space followed by text without spaces adds that text as one more piece.
proof fn lemma_split_append(a: Seq<char>, b: Seq<char>)
    requires
        lacks(b, ' '),
    ensures
        split_spaces(a + seq![' '] + b) == split_spaces(a).push(b),
    decreases b.len(),
{
    let t = a + seq![' '] + b;
    if b.len() == 0 {
        assert(t.drop_last() =~= a);
        assert(b =~= Seq::<char>::empty());
    } else {
        lemma_split_append(a, b.drop_last());
        assert(t.drop_last() =~= a + seq![' '] + b.drop_last());
        assert(t.last() == b.last());
        let rest = split_spaces(a).push(b.drop_last());
        assert(b.drop_last().push(b.last()) =~= b);
        assert(rest.update(rest.len() - 1, rest.last().push(b.last())) =~= split_spaces(a).push(
            b,
        ));
    }
}

/// The pieces of the written numbers are their decimal forms.
proof fn lemma_split_join(v: Seq<u32>)
    requires
        v.len() > 0,
    ensures
        split_spaces(join_decimals(v)) == Seq::new(v.len(), |i: int| decimal(v[i] as nat)),
    decreases v.len(),
{
    lemma_decimal(v.last() as nat);
    if v.len() == 1 {
        lemma_split_no_space(decimal(v[0] as nat));
        assert(Seq::new(v.len(), |i: int| decimal(v[i] as nat)) =~= seq![decimal(v[0] as nat)]);
    } else {
        lemma_split_join(v.drop_last());
        lemma_split_append(join_decimals(v.drop_last()), decimal(v.last() as nat));
        assert(Seq::new(v.drop_last().len(), |i: int| decimal(v.drop_last()[i] as nat)).push(
            decimal(v.last() as nat),
        ) =~= Seq::new(v.len(), |i: int| decimal(v[i] as nat)));
    }
}

/// Reading the decimal forms of numbers gives the numbers back.
proof fn lemma_parse_decimals(v: Seq<u32>)
    ensures
        parsed_numbers(Seq::new(v.len(), |i: int| decimal(v[i] as nat))) == v,
    decreases v.len(),
{
    let segs = Seq::new(v.len(), |i: int| decimal(v[i] as nat));
    if v.len() > 0 {
        lemma_parse_decimals(v.drop_last());
        assert(segs.drop_last() =~= Seq::new(v.drop_last().len(), |i: int| decimal(v.drop_last()[i] as nat)));
        lemma_parse_decimal(v.last());
        assert(v.drop_last().push(v.last()) =~= v);
    } else {
        assert(v =~= Seq::<u32>::empty());
    }
}

/// Reading back a line of numbers written by `slice_to_string` gives the same
/// numbers, in the same order.
pub proof fn lemma_line_round_trip(v: Seq<u32>)
    ensures
        line_numbers(join_decimals(v)) == v,
{
    if v.len() == 0 {
        assert(join_decimals(v) =~= Seq::<char>::empty());
        assert(split_spaces(Seq::<char>::empty()) =~= seq![Seq::<char>::empty()]);
        assert(parse_u32(Seq::<char>::empty()) is None);
        let segs = seq![Seq::<char>::empty()];
        assert(segs.drop_last() =~= Seq::<Seq<char>>::empty());
        assert(segs.last() == Seq::<char>::empty());
        assert(parse_u32(segs.last()) is None);
        assert(parsed_numbers(segs.drop_last()) =~= Seq::<u32>::empty());
        assert(parsed_numbers(seq![Seq::<char>::empty()]) =~= Seq::<u32>::empty());
        assert(v =~= Seq::<u32>::empty());
    } else {
        lemma_split_join(v);
        lemma_parse_decimals(v);
    }
}

/// A written line of numbers has no line break.
proof fn lemma_join_lacks_newline(v: Seq<u32>)
    ensures
        lacks(join_decimals(v), '\n'),
    decreases v.len(),
{
    if v.len() == 1 {
        lemma_decimal(v[0] as nat);
    } else if v.len() > 1 {
        lemma_join_lacks_newline(v.drop_last());
        lemma_decimal(v.last() as nat);
        let a = join_decimals(v.drop_last());
        let d = decimal(v.last() as nat);
        assert forall|i: int| 0 <= i < (a + seq![' '] + d).len() implies (a + seq![' '] + d)[i] != '\n' by {
            if i < a.len() {
            } else if i == a.len() {
            } else {
                assert((a + seq![' '] + d)[i] == d[i - a.len() - 1]);
            }
        }
    }
}

/// Text without line breaks has none first.
proof fn lemma_first_newline_none(s: Seq<char>)
    requires
        lacks(s, '\n'),
    ensures
        first_newline(s) is None,
    decreases s.len(),
{
    if s.len() > 0 {
        lemma_first_newline_none(s.drop_last());
    }
}

/// Text added after a line break does not move the first line break.
proof fn lemma_first_newline_extend(p: Seq<char>, t: Seq<char>)
    requires
        first_newline(p) is Some,
    ensures
        first_newline(p + t) == first_newline(p),
    decreases t.len(),
{
    if t.len() == 0 {
        assert(p + t =~= p);
    } else {
        lemma_first_newline_extend(p, t.drop_last());
        assert((p + t).drop_last() =~= p + t.drop_last());
    }
}

/// Reading back a score text of two written lines of numbers, joined by a line
/// break, gives the high scores and the cleared-row counts that were written.
pub proof fn lemma_high_scores_round_trip(highscores: Seq<u32>, num_lines: Seq<u32>)
    ensures
        high_scores_of(join_decimals(highscores) + seq!['\n'] + join_decimals(num_lines)) == Some(
            (highscores, num_lines),
        ),
{
    let a = join_decimals(highscores);
    let b = join_decimals(num_lines);
    let content = a + seq!['\n'] + b;
    lemma_join_lacks_newline(highscores);
    lemma_first_newline_none(a);
    assert((a + seq!['\n']).drop_last() =~= a);
    assert(first_newline(a + seq!['\n']) == Some(a.len() as int));
    lemma_first_newline_extend(a + seq!['\n'], b);
    assert(content.take(a.len() as int) =~= a);
    assert(content.skip(a.len() + 1int) =~= b);
    lemma_line_round_trip(highscores);
    lemma_line_round_trip(num_lines);
}

} // verus!
