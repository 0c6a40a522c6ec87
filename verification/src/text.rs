//! Text and byte helpers shared by the codecs: character access to strings,
//! splitting on a separator, line splitting with the usual text-file
//! conventions, and the one trusted conversion from UTF-8 bytes to a string.

use vstd::prelude::*;
use vstd::utf8::{decode_utf8, valid_utf8};

verus! {

/// The characters of a string slice, as a vector.
pub fn chars_of(s: &str) -> (chars: Vec<char>)
    ensures
        chars@ == s@,
{
    let n = s.unicode_len();
    let mut chars = Vec::<char>::new();
    let mut i: usize = 0;

    #[verifier::loop_isolation(false)]
    while i < n
        invariant
            i <= n,
            chars@ == s@.take(i as int),
        decreases n - i,
    {
        chars.push(s.get_char(i));
        i = i + 1;
        proof {
            assert(chars@ =~= s@.take(i as int));
        }
    }
    proof {
        assert(s@.take(n as int) =~= s@);
    }
    chars
}

/// Whether two character vectors hold the same characters.
pub fn char_vecs_equal(a: &Vec<char>, b: &Vec<char>) -> (equal: bool)
    ensures
        equal == (a@ == b@),
{
    if a.len() != b.len() {
        return false;
    }
    let mut i: usize = 0;

    #[verifier::loop_isolation(false)]
    while i < a.len()
        invariant
            i <= a@.len(),
            a@.len() == b@.len(),
            forall|j: int| 0 <= j < i ==> a@[j] == b@[j],
        decreases a@.len() - i,
    {
        if a[i] != b[i] {
            return false;
        }
        i = i + 1;
    }
    proof {
        assert(a@ =~= b@);
    }
    true
}

/// A copy of `v[start..end]`.
pub fn sub_vec<T: Copy>(v: &Vec<T>, start: usize, end: usize) -> (part: Vec<T>)
    requires
        start <= end <= v@.len(),
    ensures
        part@ == v@.subrange(start as int, end as int),
{
    let mut part = Vec::<T>::new();
    let mut i = start;

    #[verifier::loop_isolation(false)]
    while i < end
        invariant
            start <= i <= end,
            part@ == v@.subrange(start as int, i as int),
        decreases end - i,
    {
        part.push(v[i]);
        i = i + 1;
        proof {
            assert(part@ =~= v@.subrange(start as int, i as int));
        }
    }
    part
}

/// Index of the first `sep` in `s`, or `s.len()` when there is none.
pub open spec fn first_index_of(s: Seq<char>, sep: char) -> nat
    decreases s.len(),
{
    if s.len() == 0 {
        0
    } else if s[0] == sep {
        0
    } else {
        1 + first_index_of(s.skip(1), sep)
    }
}

/// `first_index_of` is the least index holding `sep`: nothing before it is a
/// separator, and it points at one unless the string has none at all.
pub proof fn lemma_first_index_of_bounds(s: Seq<char>, sep: char)
    ensures
        first_index_of(s, sep) <= s.len(),
        first_index_of(s, sep) < s.len() ==> s[first_index_of(s, sep) as int] == sep,
        forall|j: int| 0 <= j < first_index_of(s, sep) ==> s[j] != sep,
    decreases s.len(),
{
    if s.len() > 0 && s[0] != sep {
        lemma_first_index_of_bounds(s.skip(1), sep);
        assert forall|j: int| 0 <= j < first_index_of(s, sep) implies s[j] != sep by {
            if j > 0 {
                assert(s.skip(1)[j - 1] != sep);
            }
        }
    }
}

/// Any index with the least-separator property is `first_index_of`.
pub proof fn lemma_first_index_of_is(s: Seq<char>, sep: char, k: int)
    requires
        0 <= k <= s.len(),
        forall|j: int| 0 <= j < k ==> s[j] != sep,
        k < s.len() ==> s[k] == sep,
    ensures
        first_index_of(s, sep) == k,
    decreases s.len(),
{
    if s.len() == 0 {
    } else if s[0] == sep {
        assert(k == 0);
    } else {
        assert(k >= 1);
        lemma_first_index_of_is(s.skip(1), sep, k - 1);
    }
}

/// Index of the first `sep` in `line`, or its length when there is none.
pub fn index_of_char(line: &Vec<char>, sep: char) -> (index: usize)
    ensures
        index == first_index_of(line@, sep),
{
    let mut i: usize = 0;

    #[verifier::loop_isolation(false)]
    while i < line.len()
        invariant
            i <= line@.len(),
            forall|j: int| 0 <= j < i ==> line@[j] != sep,
        decreases line@.len() - i,
    {
        if line[i] == sep {
            proof {
                lemma_first_index_of_is(line@, sep, i as int);
            }
            return i;
        }
        i = i + 1;
    }
    proof {
        lemma_first_index_of_is(line@, sep, line@.len() as int);
    }
    line.len()
}

/// The pieces of `s` split on `sep`: always one more piece than there are
/// separators, so the empty sequence splits into one empty piece.
pub open spec fn split_on(s: Seq<char>, sep: char) -> Seq<Seq<char>>
    decreases s.len(),
{
    let i = first_index_of(s, sep);
    if i >= s.len() {
        seq![s]
    } else {
        seq![s.take(i as int)] + split_on(s.skip(i as int + 1), sep)
    }
}

/// The views of a vector of character segments.
pub open spec fn views_of(segments: Seq<Vec<char>>) -> Seq<Seq<char>> {
    segments.map_values(|segment: Vec<char>| segment@)
}

/// Split a character vector on `sep`.
#[verifier::rlimit(100)]
#[verifier::spinoff_prover]
pub fn split_chars(chars: &Vec<char>, sep: char) -> (pieces: Vec<Vec<char>>)
    ensures
        views_of(pieces@) == split_on(chars@, sep),
{
    let mut pieces = Vec::<Vec<char>>::new();
    let mut current = Vec::<char>::new();
    let mut i: usize = 0;

    proof {
        assert(current@ + chars@.skip(0) =~= chars@);
        assert(views_of(pieces@) + split_on(chars@, sep) =~= split_on(chars@, sep));
    }
    #[verifier::loop_isolation(false)]
    while i < chars.len()
        invariant
            i <= chars@.len(),
            forall|j: int| 0 <= j < current@.len() ==> current@[j] != sep,
            split_on(chars@, sep) == views_of(pieces@) + split_on(
                current@ + chars@.skip(i as int),
                sep,
            ),
        decreases chars@.len() - i,
    {
        let ghost rest = current@ + chars@.skip(i as int);
        let c = chars[i];
        if c == sep {
            proof {
                assert(rest[current@.len() as int] == sep);
                lemma_first_index_of_is(rest, sep, current@.len() as int);
                assert(rest.take(current@.len() as int) =~= current@);
                assert(rest.skip(current@.len() as int + 1) =~= chars@.skip(i as int + 1));
                assert(views_of(pieces@.push(current)) =~= views_of(pieces@) + seq![current@]);
                assert(split_on(chars@, sep) =~= views_of(pieces@.push(current)) + split_on(
                    chars@.skip(i as int + 1),
                    sep,
                ));
            }
            pieces.push(current);
            current = Vec::new();
            proof {
                assert(current@ + chars@.skip(i as int + 1) =~= chars@.skip(i as int + 1));
            }
        } else {
            current.push(c);
            proof {
                assert(current@ + chars@.skip(i as int + 1) =~= rest);
            }
        }
        i = i + 1;
    }
    proof {
        assert(current@ + chars@.skip(chars@.len() as int) =~= current@);
        lemma_first_index_of_is(current@, sep, current@.len() as int);
        assert(views_of(pieces@.push(current)) =~= views_of(pieces@) + seq![current@]);
    }
    pieces.push(current);
    pieces
}

/// A line without its trailing carriage return, if it carries one.
pub open spec fn strip_cr(line: Seq<char>) -> Seq<char> {
    if line.len() > 0 && line[line.len() - 1] == '\r' {
        line.drop_last()
    } else {
        line
    }
}

/// The lines of a text, as `str::lines` reads them: split on newlines, one
/// final newline ends the last line rather than opening an empty one, and a
/// trailing carriage return is dropped from each line.
pub open spec fn split_lines(s: Seq<char>) -> Seq<Seq<char>> {
    if s.len() == 0 {
        seq![]
    } else {
        let raw = split_on(s, '\n');
        let kept = if s[s.len() - 1] == '\n' {
            raw.drop_last()
        } else {
            raw
        };
        kept.map_values(|line: Seq<char>| strip_cr(line))
    }
}

/// Split a text into its lines, as `str::lines` would.
pub fn split_lines_exec(chars: &Vec<char>) -> (lines: Vec<Vec<char>>)
    ensures
        views_of(lines@) == split_lines(chars@),
{
    if chars.len() == 0 {
        let lines = Vec::<Vec<char>>::new();
        proof {
            assert(views_of(lines@) =~= split_lines(chars@));
        }
        return lines;
    }
    let mut raw = split_chars(chars, '\n');
    proof {
        assert(raw@.len() == views_of(raw@).len());
        assert(raw@.len() > 0);
    }
    if chars[chars.len() - 1] == '\n' {
        proof {
            assert(views_of(raw@.drop_last()) =~= views_of(raw@).drop_last());
        }
        raw.pop();
    }
    let ghost kept = views_of(raw@);
    let mut lines = Vec::<Vec<char>>::new();
    let mut i: usize = 0;

    #[verifier::loop_isolation(false)]
    while i < raw.len()
        invariant
            i <= raw@.len(),
            kept == views_of(raw@),
            views_of(lines@) == kept.map_values(|line: Seq<char>| strip_cr(line)).take(i as int),
        decreases raw@.len() - i,
    {
        let line = &raw[i];
        let stripped = if line.len() > 0 && line[line.len() - 1] == '\r' {
            sub_vec(line, 0, line.len() - 1)
        } else {
            sub_vec(line, 0, line.len())
        };
        proof {
            assert(line@.subrange(0, line@.len() as int) =~= line@);
            assert(line@.subrange(0, line@.len() - 1) =~= line@.drop_last());
            assert(stripped@ =~= strip_cr(kept[i as int]));
        }
        lines.push(stripped);
        i = i + 1;
        proof {
            assert(views_of(lines@) =~= kept.map_values(|line: Seq<char>| strip_cr(line)).take(
                i as int,
            ));
        }
    }
    proof {
        assert(kept.map_values(|line: Seq<char>| strip_cr(line)).take(kept.len() as int)
            =~= split_lines(chars@));
    }
    lines
}

/// The character lowercased as ASCII: letters `A` to `Z` gain 32, all
/// other characters stay.
pub open spec fn lower_char(c: char) -> char {
    if 'A' <= c && c <= 'Z' {
        ((c as u8) + 32) as char
    } else {
        c
    }
}

/// The sequence lowercased as ASCII.
pub open spec fn lower_chars(s: Seq<char>) -> Seq<char> {
    s.map_values(|c: char| lower_char(c))
}

/// Lowercase ASCII letters in a character vector.
pub fn lower_chars_exec(chars: &Vec<char>) -> (lowered: Vec<char>)
    ensures
        lowered@ == lower_chars(chars@),
{
    let mut lowered = Vec::<char>::new();
    let mut i: usize = 0;

    #[verifier::loop_isolation(false)]
    while i < chars.len()
        invariant
            i <= chars@.len(),
            lowered@ == lower_chars(chars@).take(i as int),
        decreases chars@.len() - i,
    {
        let c = chars[i];
        let code = c as u32;
        if 65 <= code && code <= 90 {
            lowered.push(((code + 32) as u8) as char);
        } else {
            lowered.push(c);
        }
        i = i + 1;
        proof {
            assert(lowered@ =~= lower_chars(chars@).take(i as int));
        }
    }
    proof {
        assert(lower_chars(chars@).take(chars@.len() as int) =~= lower_chars(chars@));
    }
    lowered
}

/// The sequence without its spaces.
pub open spec fn remove_spaces(s: Seq<char>) -> Seq<char>
    decreases s.len(),
{
    if s.len() == 0 {
        seq![]
    } else if s[0] == ' ' {
        remove_spaces(s.skip(1))
    } else {
        seq![s[0]] + remove_spaces(s.skip(1))
    }
}

/// Taking one more character extends the space-free prefix.
proof fn lemma_remove_spaces_snoc(s: Seq<char>, i: int)
    requires
        0 <= i < s.len(),
    ensures
        remove_spaces(s.take(i + 1)) == remove_spaces(s.take(i)) + (if s[i] == ' ' {
            Seq::<char>::empty()
        } else {
            seq![s[i]]
        }),
    decreases s.len() + i,
{
    if i == 0 {
        let t1 = s.take(1);
        assert(t1.len() == 1 && t1[0] == s[0]);
        assert(t1.skip(1) =~= Seq::<char>::empty());
        assert(s.take(0) =~= Seq::<char>::empty());
        assert(remove_spaces(Seq::<char>::empty()) =~= Seq::<char>::empty());
        if s[0] == ' ' {
            assert(remove_spaces(t1) == remove_spaces(t1.skip(1)));
            assert(remove_spaces(t1) =~= Seq::<char>::empty());
        } else {
            assert(remove_spaces(t1) == seq![t1[0]] + remove_spaces(t1.skip(1)));
            assert(remove_spaces(t1) =~= seq![s[0]]);
        }
        assert(remove_spaces(s.take(0)) + (if s[0] == ' ' {
            Seq::<char>::empty()
        } else {
            seq![s[0]]
        }) =~= (if s[0] == ' ' {
            Seq::<char>::empty()
        } else {
            seq![s[0]]
        }));
    } else {
        let t = s.skip(1);
        lemma_remove_spaces_snoc(t, i - 1);
        assert(s.take(i + 1).skip(1) =~= t.take(i));
        assert(s.take(i).skip(1) =~= t.take(i - 1));
        assert(t.take(i - 1 + 1) =~= t.take(i));
        assert(t[i - 1] == s[i]);
        if s[0] == ' ' {
        } else {
            assert(seq![s[0]] + (remove_spaces(t.take(i - 1)) + (if s[i] == ' ' {
                Seq::<char>::empty()
            } else {
                seq![s[i]]
            })) =~= (seq![s[0]] + remove_spaces(t.take(i - 1))) + (if s[i] == ' ' {
                Seq::<char>::empty()
            } else {
                seq![s[i]]
            }));
        }
    }
}

/// Drop every space from a character vector.
pub fn remove_spaces_exec(chars: &Vec<char>) -> (kept: Vec<char>)
    ensures
        kept@ == remove_spaces(chars@),
{
    let mut kept = Vec::<char>::new();
    let mut i: usize = 0;

    proof {
        assert(chars@.take(0) =~= Seq::<char>::empty());
    }
    #[verifier::loop_isolation(false)]
    while i < chars.len()
        invariant
            i <= chars@.len(),
            kept@ == remove_spaces(chars@.take(i as int)),
        decreases chars@.len() - i,
    {
        proof {
            lemma_remove_spaces_snoc(chars@, i as int);
        }
        let c = chars[i];
        if c != ' ' {
            kept.push(c);
            proof {
                assert(kept@ =~= remove_spaces(chars@.take(i as int)) + seq![chars@[i as int]]);
            }
        } else {
            proof {
                assert(kept@ =~= remove_spaces(chars@.take(i as int)) + Seq::<char>::empty());
            }
        }
        i = i + 1;
    }
    proof {
        assert(chars@.take(chars@.len() as int) =~= chars@);
    }
    kept
}

/// Index of the first character that is not a space, or `s.len()`.
pub open spec fn first_non_space(s: Seq<char>) -> nat
    decreases s.len(),
{
    if s.len() == 0 {
        0
    } else if s[0] != ' ' {
        0
    } else {
        1 + first_non_space(s.skip(1))
    }
}

/// Any index with the least-non-space property is `first_non_space`.
proof fn lemma_first_non_space_is(s: Seq<char>, k: int)
    requires
        0 <= k <= s.len(),
        forall|j: int| 0 <= j < k ==> s[j] == ' ',
        k < s.len() ==> s[k] != ' ',
    ensures
        first_non_space(s) == k,
    decreases s.len(),
{
    if s.len() == 0 {
    } else if s[0] != ' ' {
        assert(k == 0);
    } else {
        assert(k >= 1);
        lemma_first_non_space_is(s.skip(1), k - 1);
    }
}

/// One past the last character that is not a space, or zero.
pub open spec fn last_non_space_end(s: Seq<char>) -> nat
    decreases s.len(),
{
    if s.len() == 0 {
        0
    } else if s.last() != ' ' {
        s.len()
    } else {
        last_non_space_end(s.drop_last())
    }
}

/// Any end index with the greatest-non-space property is
/// `last_non_space_end`.
proof fn lemma_last_non_space_end_is(s: Seq<char>, k: int)
    requires
        0 <= k <= s.len(),
        forall|j: int| k <= j < s.len() ==> s[j] == ' ',
        k > 0 ==> s[k - 1] != ' ',
    ensures
        last_non_space_end(s) == k,
    decreases s.len(),
{
    if s.len() == 0 {
    } else if s.last() != ' ' {
        assert(k == s.len());
    } else {
        assert(k < s.len());
        lemma_last_non_space_end_is(s.drop_last(), k);
    }
}

/// The sequence without leading and trailing spaces.
pub open spec fn trim_spaces(s: Seq<char>) -> Seq<char> {
    if first_non_space(s) >= last_non_space_end(s) {
        Seq::<char>::empty()
    } else {
        s.subrange(first_non_space(s) as int, last_non_space_end(s) as int)
    }
}

/// Strip leading and trailing spaces from a character vector.
pub fn trim_spaces_exec(chars: &Vec<char>) -> (trimmed: Vec<char>)
    ensures
        trimmed@ == trim_spaces(chars@),
{
    let n = chars.len();
    let mut a: usize = 0;

    #[verifier::loop_isolation(false)]
    while a < n && chars[a] == ' '
        invariant
            a <= n,
            forall|j: int| 0 <= j < a ==> chars@[j] == ' ',
        decreases n - a,
    {
        a = a + 1;
    }
    proof {
        lemma_first_non_space_is(chars@, a as int);
    }
    let mut b: usize = n;

    #[verifier::loop_isolation(false)]
    while b > a && chars[b - 1] == ' '
        invariant
            a <= b <= n,
            forall|j: int| b <= j < n ==> chars@[j] == ' ',
        decreases b,
    {
        b = b - 1;
    }
    if a == b {
        proof {
            if b > 0 && chars@[b - 1] != ' ' {
                lemma_last_non_space_end_is(chars@, b as int);
            } else {
                assert(forall|j: int| a <= j < n ==> chars@[j] == ' ');
                lemma_last_non_space_end_is(chars@, 0);
            }
            assert(trim_spaces(chars@) =~= Seq::<char>::empty());
        }
        return Vec::new();
    }
    proof {
        lemma_last_non_space_end_is(chars@, b as int);
    }
    let trimmed = sub_vec(chars, a, b);
    proof {
        assert(trimmed@ =~= trim_spaces(chars@));
    }
    trimmed
}

/// The decimal value of a digit sequence.
pub open spec fn dec_value(s: Seq<char>) -> nat
    decreases s.len(),
{
    if s.len() == 0 {
        0
    } else {
        dec_value(s.drop_last()) * 10 + (s.last() as u32 - 48) as nat
    }
}

/// Whether every character is a decimal digit.
pub open spec fn all_digits(s: Seq<char>) -> bool {
    forall|i: int| 0 <= i < s.len() ==> 48 <= #[trigger] s[i] as u32 <= 57
}

/// The value a digit string names, when it is a non-empty digit string
/// whose value fits in 32 bits.
pub open spec fn parse_u32(s: Seq<char>) -> Option<u32> {
    if s.len() == 0 || !all_digits(s) || dec_value(s) > u32::MAX {
        None
    } else {
        Some(dec_value(s) as u32)
    }
}

/// A longer digit prefix never names a smaller value.
proof fn lemma_dec_value_grows(s: Seq<char>, i: int)
    requires
        0 <= i <= s.len(),
        all_digits(s),
    ensures
        dec_value(s.take(i)) <= dec_value(s),
    decreases s.len() - i,
{
    if i < s.len() {
        lemma_dec_value_grows(s, i + 1);
        assert(s.take(i + 1).drop_last() =~= s.take(i));
        assert(dec_value(s.take(i + 1)) == dec_value(s.take(i)) * 10 + (s.take(i + 1).last()
            as u32 - 48) as nat);
    } else {
        assert(s.take(i) =~= s);
    }
}

/// Read a digit string as a 32-bit value; anything else gives nothing.
pub fn parse_u32_exec(chars: &Vec<char>) -> (value: Option<u32>)
    ensures
        value == parse_u32(chars@),
{
    if chars.len() == 0 {
        return None;
    }
    let mut acc: u32 = 0;
    let mut i: usize = 0;

    #[verifier::loop_isolation(false)]
    while i < chars.len()
        invariant
            i <= chars@.len(),
            all_digits(chars@.take(i as int)),
            acc == dec_value(chars@.take(i as int)),
        decreases chars@.len() - i,
    {
        let c = chars[i];
        let code = c as u32;
        if code < 48 || code > 57 {
            proof {
                assert(!(48 <= chars@[i as int] as u32 <= 57));
            }
            return None;
        }
        let digit = code - 48;
        if acc > (u32::MAX - digit) / 10 {
            proof {
                assert(chars@.take(i as int + 1).drop_last() =~= chars@.take(i as int));
                assert forall|j: int| 0 <= j < i + 1 implies 48 <= #[trigger] chars@.take(
                    i as int + 1,
                )[j] as u32 <= 57 by {
                    if j < i {
                        assert(48 <= chars@.take(i as int)[j] as u32 <= 57);
                    } else {
                        assert(chars@.take(i as int + 1)[j] == chars@[i as int]);
                    }
                }
                assert(all_digits(chars@.take(i as int + 1)));
                assert(dec_value(chars@.take(i as int + 1)) > u32::MAX) by {
                    assert(dec_value(chars@.take(i as int + 1)) == acc * 10 + digit);
                    assert(acc * 10 + digit > u32::MAX) by (nonlinear_arith)
                        requires
                            acc > (u32::MAX - digit) / 10,
                            digit <= 9,
                    ;
                }
                if all_digits(chars@) {
                    lemma_dec_value_grows(chars@, i as int + 1);
                }
            }
            return None;
        }
        proof {
            assert(chars@.take(i as int + 1).drop_last() =~= chars@.take(i as int));
            assert(acc * 10 + digit <= u32::MAX) by (nonlinear_arith)
                requires
                    acc <= (u32::MAX - digit) / 10,
                    digit <= 9,
            ;
        }
        acc = acc * 10 + digit;
        i = i + 1;
        proof {
            assert forall|j: int| 0 <= j < i implies 48 <= #[trigger] chars@.take(i as int)[j]
                as u32 <= 57 by {
                if j < i - 1 {
                    assert(48 <= chars@.take(i as int - 1)[j] as u32 <= 57);
                } else {
                    assert(chars@.take(i as int)[j] == chars@[i as int - 1]);
                }
            }
            assert(all_digits(chars@.take(i as int)));
        }
    }
    proof {
        assert(chars@.take(chars@.len() as int) =~= chars@);
    }
    Some(acc)
}

/// The decimal digits of `n`, most significant first.
pub open spec fn dec_chars(n: nat) -> Seq<char>
    decreases n,
{
    if n < 10 {
        seq![(48 + n) as char]
    } else {
        dec_chars(n / 10) + seq![(48 + n % 10) as char]
    }
}

/// The decimal digits of a 16-bit value, as characters.
pub fn u16_dec_chars(n: u16) -> (digits: Vec<char>)
    ensures
        digits@ == dec_chars(n as nat),
    decreases n,
{
    if n < 10 {
        let digits = vec![((48 + n) as u8) as char];
        proof {
            assert(digits@ =~= dec_chars(n as nat));
        }
        digits
    } else {
        let mut digits = u16_dec_chars(n / 10);
        digits.push(((48 + n % 10) as u8) as char);
        proof {
            assert(digits@ =~= dec_chars(n as nat));
        }
        digits
    }
}

/// Relies on `String`'s `FromIterator` of `char`: collecting characters
/// builds the string of exactly those characters.
#[verifier::external_body]
pub fn string_from_chars(chars: &Vec<char>) -> (text: String)
    ensures
        text@ == chars@,
{
    chars.iter().collect()
}

/// Relies on `str::from_utf8`: it succeeds exactly on valid UTF-8 input and
/// returns the string whose encoding is that input.
#[verifier::external_body]
pub fn utf8_to_string(bytes: &[u8]) -> (decoded: Option<String>)
    ensures
        decoded is Some <==> valid_utf8(bytes@),
        decoded is Some ==> decoded.unwrap()@ == decode_utf8(bytes@),
{
    match core::str::from_utf8(bytes) {
        Ok(s) => Some(s.to_owned()),
        Err(_) => None,
    }
}

} // verus!
