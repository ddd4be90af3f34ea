//! Small functions on text.
use vstd::prelude::*;
use vstd::string::*;

verus! {

/// The characters of `s`.
pub fn chars_of(s: &str) -> (r: Vec<char>)
    ensures
        r@ == s@,
{
    let mut v: Vec<char> = Vec::new();
    for c in it: s.chars()
        invariant
            v@ =~= it.seq().take(it.index() as int),
            it.seq() == s@,
    {
        v.push(c);
    }
    assert(v@ =~= s@);
    v
}

/// Whether `pat` stands in `s` at position `i`.
pub open spec fn occurs_at(s: Seq<char>, pat: Seq<char>, i: int) -> bool {
    0 <= i && i + pat.len() <= s.len() && s.subrange(i, i + pat.len()) == pat
}

/// The first position from `i` on at which `pat` stands in `s`.
pub open spec fn find_from(s: Seq<char>, pat: Seq<char>, i: int) -> Option<int>
    decreases s.len() + 1 - i,
{
    if i + pat.len() > s.len() {
        None
    } else if occurs_at(s, pat, i) {
        Some(i)
    } else {
        find_from(s, pat, i + 1)
    }
}

/// The first position at which `pat` stands in `s`.
pub open spec fn find(s: Seq<char>, pat: Seq<char>) -> Option<int> {
    find_from(s, pat, 0)
}

/// A search finds the first occurrence, if there is one.
pub proof fn lemma_find_from(s: Seq<char>, pat: Seq<char>, i: int)
    requires
        0 <= i,
    ensures
        match find_from(s, pat, i) {
            Some(k) => i <= k && occurs_at(s, pat, k) && forall|j: int|
                i <= j < k ==> !#[trigger] occurs_at(s, pat, j),
            None => forall|j: int| i <= j ==> !#[trigger] occurs_at(s, pat, j),
        },
    decreases s.len() + 1 - i,
{
    if i + pat.len() <= s.len() && !occurs_at(s, pat, i) {
        lemma_find_from(s, pat, i + 1);
    }
}

/// Whether `pat` stands in `s[..hi]` at position `i`.
fn matches_at(s: &Vec<char>, hi: usize, pat: &Vec<char>, i: usize) -> (r: bool)
    requires
        hi <= s@.len(),
        i <= hi,
    ensures
        r == occurs_at(s@.take(hi as int), pat@, i as int),
{
    if hi - i < pat.len() {
        return false;
    }
    let mut k: usize = 0;
    while k < pat.len()
        invariant
            hi <= s@.len(),
            i + pat@.len() <= hi,
            k <= pat@.len(),
            forall|j: int| 0 <= j < k ==> s@[i + j] == #[trigger] pat@[j],
        decreases pat@.len() - k,
    {
        if s[i + k] != pat[k] {
            assert(s@.take(hi as int).subrange(i as int, i + pat@.len())[k as int] != pat@[k as int]);
            return false;
        }
        k += 1;
    }
    assert(s@.take(hi as int).subrange(i as int, i + pat@.len()) =~= pat@);
    true
}

/// The first position of `pat` in `s[lo..hi]`, counted from the start of `s`.
pub fn find_within(s: &Vec<char>, lo: usize, hi: usize, pat: &str) -> (r: Option<usize>)
    requires
        lo <= hi <= s@.len(),
    ensures
        match r {
            Some(i) => find(s@.subrange(lo as int, hi as int), pat@) == Some(i - lo) && lo <= i
                && i + pat@.len() <= hi,
            None => find(s@.subrange(lo as int, hi as int), pat@) is None,
        },
{
    let p = chars_of(pat);
    let ghost part = s@.subrange(lo as int, hi as int);
    let mut i: usize = lo;
    loop
        invariant
            lo <= i <= hi <= s@.len(),
            p@ == pat@,
            part == s@.subrange(lo as int, hi as int),
            find(part, p@) == find_from(part, p@, i - lo),
        decreases hi - i,
    {
        if hi - i < p.len() {
            return None;
        }
        proof {
            assert(s@.take(hi as int).subrange(i as int, i + p@.len()) =~= part.subrange(
                i - lo,
                i - lo + p@.len(),
            ));
        }
        if matches_at(s, hi, &p, i) {
            return Some(i);
        }
        if i == hi {
            assert(part.subrange(i - lo, i - lo + p@.len()) =~= p@);
            return None;
        }
        i += 1;
    }
}

/// Whether `s` begins with `pat`.
pub open spec fn starts_with(s: Seq<char>, pat: Seq<char>) -> bool {
    pat.len() <= s.len() && s.take(pat.len() as int) == pat
}

/// Whether `s[lo..]` begins with `pat`.
pub fn begins_at(s: &Vec<char>, lo: usize, pat: &str) -> (r: bool)
    requires
        lo <= s@.len(),
    ensures
        r == starts_with(s@.skip(lo as int), pat@),
{
    let pat = chars_of(pat);
    let r = matches_at(s, s.len(), &pat, lo);
    assert(s@.take(s@.len() as int) =~= s@);
    assert(lo + pat@.len() <= s@.len() ==> s@.subrange(lo as int, lo + pat@.len()) =~= s@.skip(
        lo as int,
    ).take(pat@.len() as int));
    r
}

/// The decimal digit `d`.
pub open spec fn digit(d: nat) -> char {
    if d == 0 {
        '0'
    } else if d == 1 {
        '1'
    } else if d == 2 {
        '2'
    } else if d == 3 {
        '3'
    } else if d == 4 {
        '4'
    } else if d == 5 {
        '5'
    } else if d == 6 {
        '6'
    } else if d == 7 {
        '7'
    } else if d == 8 {
        '8'
    } else {
        '9'
    }
}

/// `n` in decimal, without leading zeros.
pub open spec fn decimal(n: nat) -> Seq<char>
    decreases n,
{
    if n < 10 {
        seq![digit(n)]
    } else {
        decimal(n / 10).push(digit(n % 10))
    }
}

/// Appends `n` in decimal.
pub fn push_decimal(out: &mut String, n: u64)
    ensures
        final(out)@ == old(out)@ + decimal(n as nat),
    decreases n,
{
    if n >= 10 {
        push_decimal(out, n / 10);
    }
    let d = n % 10;
    let ghost mid = out@;
    let one = if d == 0 {
        "0"
    } else if d == 1 {
        "1"
    } else if d == 2 {
        "2"
    } else if d == 3 {
        "3"
    } else if d == 4 {
        "4"
    } else if d == 5 {
        "5"
    } else if d == 6 {
        "6"
    } else if d == 7 {
        "7"
    } else if d == 8 {
        "8"
    } else {
        "9"
    };
    proof {
        reveal_strlit("0");
        reveal_strlit("1");
        reveal_strlit("2");
        reveal_strlit("3");
        reveal_strlit("4");
        reveal_strlit("5");
        reveal_strlit("6");
        reveal_strlit("7");
        reveal_strlit("8");
        reveal_strlit("9");
        assert(one@ =~= seq![digit(d as nat)]);
    }
    out.append(one);
    assert(out@ =~= old(out)@ + decimal(n as nat));
}

/// The value of a decimal digit.
pub open spec fn digit_value(c: char) -> Option<nat> {
    if '0' <= c <= '9' {
        Some((c as nat - '0' as nat) as nat)
    } else {
        None
    }
}

/// The number that a row of decimal digits stands for, if it is one.
pub open spec fn digits_value(s: Seq<char>) -> Option<nat>
    decreases s.len(),
{
    if s.len() == 0 {
        Some(0)
    } else {
        match (digits_value(s.drop_last()), digit_value(s.last())) {
            (Some(v), Some(d)) => Some(v * 10 + d),
            _ => None,
        }
    }
}

/// The number that `s` stands for: decimal digits, at least one of them, after an optional `+`.
pub open spec fn parse_u32(s: Seq<char>) -> Option<u32> {
    let digits = if s.len() > 0 && s[0] == '+' {
        s.skip(1)
    } else {
        s
    };
    match digits_value(digits) {
        Some(v) => if digits.len() > 0 && v <= u32::MAX {
            Some(v as u32)
        } else {
            None
        },
        None => None,
    }
}

proof fn lemma_digits_prefix(s: Seq<char>, k: int)
    requires
        0 <= k <= s.len(),
    ensures
        digits_value(s.take(k)) is None ==> digits_value(s) is None,
        digits_value(s) is Some ==> digits_value(s.take(k))->0 <= digits_value(s)->0,
    decreases s.len() - k,
{
    if k == s.len() {
        assert(s.take(k) =~= s);
    } else {
        assert(s.take(k + 1).drop_last() =~= s.take(k));
        lemma_digits_prefix(s, k + 1);
    }
}

/// Reads `s[lo..hi]` as a number.
pub fn parse_u32_within(s: &Vec<char>, lo: usize, hi: usize) -> (r: Option<u32>)
    requires
        lo <= hi <= s@.len(),
    ensures
        r == parse_u32(s@.subrange(lo as int, hi as int)),
{
    let ghost part = s@.subrange(lo as int, hi as int);
    let mut i: usize = lo;
    if lo < hi && s[lo] == '+' {
        i = lo + 1;
    }
    let start = i;
    let ghost digits = s@.subrange(start as int, hi as int);
    assert(digits =~= if part.len() > 0 && part[0] == '+' {
        part.skip(1)
    } else {
        part
    });
    if start == hi {
        assert(digits =~= Seq::<char>::empty());
        return None;
    }
    let mut v: u64 = 0;
    assert(digits.take(0) =~= Seq::<char>::empty());
    while i < hi
        invariant
            start <= i <= hi <= s@.len(),
            digits == s@.subrange(start as int, hi as int),
            part == s@.subrange(lo as int, hi as int),
            lo <= start < hi,
            digits == if part.len() > 0 && part[0] == '+' {
                part.skip(1)
            } else {
                part
            },
            digits_value(digits.take(i - start)) == Some(v as nat),
            v <= u32::MAX,
        decreases hi - i,
    {
        let c = s[i];
        assert(digits.take(i + 1 - start).drop_last() =~= digits.take(i - start));
        if c < '0' || c > '9' {
            proof {
                lemma_digits_prefix(digits, i + 1 - start);
            }
            return None;
        }
        v = v * 10 + (c as u64 - '0' as u64);
        i += 1;
        if v > u32::MAX as u64 {
            proof {
                lemma_digits_prefix(digits, i - start);
            }
            return None;
        }
    }
    assert(digits.take(i - start) =~= digits);
    Some(v as u32)
}

proof fn lemma_decimal_value(n: nat)
    ensures
        digits_value(decimal(n)) == Some(n),
        decimal(n).len() > 0,
        forall|k: int| 0 <= k < decimal(n).len() ==> '0' <= #[trigger] decimal(n)[k] <= '9',
    decreases n,
{
    assert(digit_value(digit(n % 10)) == Some(n % 10));
    if n < 10 {
        let s = seq![digit(n)];
        assert(s.drop_last() =~= Seq::<char>::empty());
        assert(digits_value(s.drop_last()) == Some(0nat));
    } else {
        lemma_decimal_value(n / 10);
        assert(decimal(n).drop_last() =~= decimal(n / 10));
    }
}

/// Reading back a number in decimal gives the number.
pub proof fn law_decimal_parses(n: u32)
    ensures
        parse_u32(decimal(n as nat)) == Some(n),
        forall|k: int|
            0 <= k < decimal(n as nat).len() ==> '0' <= #[trigger] decimal(n as nat)[k] <= '9',
{
    lemma_decimal_value(n as nat);
    assert('0' <= decimal(n as nat)[0]);
}

/// The characters with the Unicode property `White_Space`.
pub open spec fn is_white_space(c: char) -> bool {
    ||| '\u{9}' <= c <= '\u{d}'
    ||| c == ' '
    ||| c == '\u{85}'
    ||| c == '\u{a0}'
    ||| c == '\u{1680}'
    ||| '\u{2000}' <= c <= '\u{200a}'
    ||| c == '\u{2028}'
    ||| c == '\u{2029}'
    ||| c == '\u{202f}'
    ||| c == '\u{205f}'
    ||| c == '\u{3000}'
}

fn white_space(c: char) -> (r: bool)
    ensures
        r == is_white_space(c),
{
    ('\u{9}' <= c && c <= '\u{d}') || c == ' ' || c == '\u{85}' || c == '\u{a0}' || c
        == '\u{1680}' || ('\u{2000}' <= c && c <= '\u{200a}') || c == '\u{2028}' || c
        == '\u{2029}' || c == '\u{202f}' || c == '\u{205f}' || c == '\u{3000}'
}

/// `s` without the white space at its end.
pub open spec fn trim_end(s: Seq<char>) -> Seq<char>
    decreases s.len(),
{
    if s.len() > 0 && is_white_space(s.last()) {
        trim_end(s.drop_last())
    } else {
        s
    }
}

/// `s` without the white space at its start.
pub open spec fn trim_start(s: Seq<char>) -> Seq<char>
    decreases s.len(),
{
    if s.len() > 0 && is_white_space(s.first()) {
        trim_start(s.drop_first())
    } else {
        s
    }
}

/// `s` without the white space around it.
pub open spec fn trim(s: Seq<char>) -> Seq<char> {
    trim_end(trim_start(s))
}

/// Where `s` begins and ends without the white space around it.
pub fn trim_bounds(s: &Vec<char>) -> (r: (usize, usize))
    ensures
        r.0 <= r.1 <= s@.len(),
        s@.subrange(r.0 as int, r.1 as int) == trim(s@),
{
    let mut lo: usize = 0;
    assert(s@.skip(0) =~= s@);
    while lo < s.len() && white_space(s[lo])
        invariant
            lo <= s@.len(),
            trim_start(s@.skip(lo as int)) == trim_start(s@),
        decreases s@.len() - lo,
    {
        assert(s@.skip(lo as int).drop_first() =~= s@.skip(lo + 1));
        lo += 1;
    }
    let ghost rest = s@.skip(lo as int);
    assert(trim_start(s@) == rest);
    let mut hi: usize = s.len();
    assert(s@.subrange(lo as int, hi as int) =~= rest);
    while lo < hi && white_space(s[hi - 1])
        invariant
            lo <= hi <= s@.len(),
            trim_end(s@.subrange(lo as int, hi as int)) == trim_end(rest),
        decreases hi,
    {
        assert(s@.subrange(lo as int, hi as int).drop_last() =~= s@.subrange(
            lo as int,
            hi - 1,
        ));
        hi -= 1;
    }
    (lo, hi)
}

/// The ASCII characters that separate words.
pub open spec fn is_ascii_space(c: char) -> bool {
    c == ' ' || c == '\t' || c == '\n' || c == '\u{c}' || c == '\r'
}

fn ascii_space(c: char) -> (r: bool)
    ensures
        r == is_ascii_space(c),
{
    c == ' ' || c == '\t' || c == '\n' || c == '\u{c}' || c == '\r'
}

/// The number of characters at the start of `s` up to the first separator.
pub open spec fn word_len(s: Seq<char>) -> nat
    decreases s.len(),
{
    if s.len() == 0 || is_ascii_space(s.first()) {
        0
    } else {
        1 + word_len(s.drop_first())
    }
}

/// The words of `s`: the longest runs of characters that are no ASCII white space.
pub open spec fn words(s: Seq<char>) -> Seq<Seq<char>>
    decreases s.len(),
{
    if s.len() == 0 {
        Seq::empty()
    } else if is_ascii_space(s.first()) {
        words(s.drop_first())
    } else {
        proof {
            lemma_word_len(s);
        }
        seq![s.take(word_len(s) as int)] + words(s.skip(word_len(s) as int))
    }
}

/// The words `ws` with one blank between each two.
pub open spec fn join(ws: Seq<Seq<char>>) -> Seq<char>
    decreases ws.len(),
{
    if ws.len() == 0 {
        Seq::empty()
    } else if ws.len() == 1 {
        ws[0]
    } else {
        join(ws.drop_last()).push(' ') + ws.last()
    }
}

/// A word is no longer than the text, and where the text begins with no separator, not empty.
pub proof fn lemma_word_len(s: Seq<char>)
    ensures
        word_len(s) <= s.len(),
        s.len() > 0 && !is_ascii_space(s.first()) ==> word_len(s) > 0,
    decreases s.len(),
{
    if s.len() > 0 && !is_ascii_space(s.first()) {
        lemma_word_len(s.drop_first());
    }
}

proof fn lemma_join_nonempty(ws: Seq<Seq<char>>)
    requires
        forall|i: int| 0 <= i < ws.len() ==> (#[trigger] ws[i]).len() > 0,
    ensures
        join(ws).len() == 0 <==> ws.len() == 0,
{
}

/// `s` with every run of ASCII white space replaced by one blank, and none at the ends.
pub fn squeeze(s: &str) -> (r: String)
    ensures
        r@ == join(words(s@)),
{
    let chars = chars_of(s);
    let mut out = String::new();
    let ghost mut done: Seq<Seq<char>> = Seq::empty();
    let mut i: usize = 0;
    assert(chars@.skip(0) =~= s@);
    assert(done + words(s@) =~= words(s@));
    while i < chars.len()
        invariant
            i <= chars@.len(),
            chars@ == s@,
            out@ == join(done),
            forall|k: int| 0 <= k < done.len() ==> (#[trigger] done[k]).len() > 0,
            done + words(s@.skip(i as int)) == words(s@),
        decreases chars@.len() - i,
    {
        let ghost rest = s@.skip(i as int);
        if ascii_space(chars[i]) {
            assert(rest.drop_first() =~= s@.skip(i + 1));
            i += 1;
        } else {
            let start = i;
            proof {
                lemma_word_len(rest);
                assert(s@.skip(start as int) =~= rest);
            }
            while i < chars.len() && !ascii_space(chars[i])
                invariant
                    start <= i <= chars@.len(),
                    chars@ == s@,
                    rest == s@.skip(start as int),
                    word_len(rest) == i - start + word_len(s@.skip(i as int)),
                decreases chars@.len() - i,
            {
                assert(s@.skip(i as int).drop_first() =~= s@.skip(i + 1));
                i += 1;
            }
            assert(word_len(s@.skip(i as int)) == 0);
            proof {
                lemma_join_nonempty(done);
                assert(rest.take(word_len(rest) as int) =~= s@.subrange(start as int, i as int));
                assert(rest.skip(word_len(rest) as int) =~= s@.skip(i as int));
            }
            let ghost word = s@.subrange(start as int, i as int);
            let ghost was = done;
            if !out.as_str().is_empty() {
                proof {
                    reveal_strlit(" ");
                }
                out.append(" ");
                assert(out@ =~= join(was).push(' '));
            }
            out.append(s.substring_char(start, i));
            proof {
                done = was.push(word);
                assert(done.drop_last() =~= was);
                assert(was + (seq![word] + words(s@.skip(i as int))) =~= done + words(
                    s@.skip(i as int),
                ));
                assert(was.len() == 0 ==> join(was) =~= Seq::<char>::empty());
                assert(out@ =~= join(done));
            }
        }
    }
    assert(s@.skip(i as int) =~= Seq::<char>::empty());
    assert(done + Seq::<Seq<char>>::empty() =~= done);
    out
}

/// A pattern occurs at a position exactly if it fits there and all its characters stand there, and
/// a text starts with it exactly if it occurs at the start.
pub proof fn law_occurrences_of_text(s: Seq<char>, pat: Seq<char>, i: int)
    ensures
        occurs_at(s, pat, i) <==> 0 <= i && i + pat.len() <= s.len() && forall|k: int|
            0 <= k < pat.len() ==> s[i + k] == #[trigger] pat[k],
        starts_with(s, pat) <==> pat.len() <= s.len() && forall|k: int|
            0 <= k < pat.len() ==> s[k] == #[trigger] pat[k],
{
    if 0 <= i && i + pat.len() <= s.len() {
        let part = s.subrange(i, i + pat.len());
        if part == pat {
            assert forall|k: int| 0 <= k < pat.len() implies s[i + k] == #[trigger] pat[k] by {
                assert(part[k] == pat[k]);
            }
        }
        if forall|k: int| 0 <= k < pat.len() ==> s[i + k] == #[trigger] pat[k] {
            assert(part =~= pat);
        }
    }
    if pat.len() <= s.len() {
        let part = s.take(pat.len() as int);
        if part == pat {
            assert forall|k: int| 0 <= k < pat.len() implies s[k] == #[trigger] pat[k] by {
                assert(part[k] == pat[k]);
            }
        }
        if forall|k: int| 0 <= k < pat.len() ==> s[k] == #[trigger] pat[k] {
            assert(part =~= pat);
        }
    }
}

/// A pattern is found where it occurs first, and is not found exactly if it occurs nowhere.
pub proof fn law_find(s: Seq<char>, pat: Seq<char>)
    ensures
        match find(s, pat) {
            Some(k) => occurs_at(s, pat, k) && forall|j: int| j < k ==> !#[trigger] occurs_at(
                s,
                pat,
                j,
            ),
            None => forall|j: int| !#[trigger] occurs_at(s, pat, j),
        },
{
    lemma_find_from(s, pat, 0);
}

/// A digit stands for its value, and no other character for any.
pub proof fn law_digits(d: nat, c: char)
    ensures
        d < 10 ==> digit(d) as nat == 48 + d,
        48 <= c as nat <= 57 ==> digit_value(c) == Some((c as nat - 48) as nat),
        (c as nat) < 48 || c as nat > 57 ==> digit_value(c) is None,
{
}

/// A number in decimal has the value of its digits, and does not start with a zero unless it is
/// one.
pub proof fn law_decimal(n: nat)
    ensures
        decimal(n).len() > 0,
        digits_value(decimal(n)) == Some(n),
        n > 0 ==> decimal(n)[0] != '0',
        n < 10 ==> decimal(n).len() == 1,
    decreases n,
{
    lemma_decimal_value(n);
    if n >= 10 {
        law_decimal(n / 10);
        lemma_decimal_value(n / 10);
        assert(decimal(n)[0] == decimal(n / 10)[0]);
    }
}

/// One more digit makes the value ten times as large and adds the digit. There is no value where
/// there is a character that is no digit.
pub proof fn law_values_of_digits(s: Seq<char>, c: char, v: nat, k: int)
    ensures
        digits_value(Seq::empty()) == Some(0nat),
        digits_value(s) == Some(v) && 48 <= c as nat <= 57 ==> digits_value(s.push(c)) == Some(
            (v * 10 + (c as nat - 48)) as nat,
        ),
        0 <= k < s.len() && (s[k] < '0' || s[k] > '9') ==> digits_value(s) is None,
        (forall|j: int| 0 <= j < s.len() ==> '0' <= #[trigger] s[j] <= '9') ==> digits_value(
            s,
        ) is Some,
    decreases s.len(),
{
    assert(s.push(c).drop_last() =~= s);
    if s.len() > 0 {
        law_values_of_digits(s.drop_last(), c, v, k);
        if forall|j: int| 0 <= j < s.len() ==> '0' <= #[trigger] s[j] <= '9' {
            assert forall|j: int| 0 <= j < s.drop_last().len() implies '0'
                <= #[trigger] s.drop_last()[j] <= '9' by {
                assert('0' <= s[j] <= '9');
            }
            assert('0' <= s[s.len() - 1] <= '9');
        }
    }
}

/// A number is read from a text of digits, if there is one and it is not too large. One plus sign
/// may come before it.
pub proof fn law_numbers_are_read(s: Seq<char>, v: nat)
    ensures
        s.len() == 0 ==> parse_u32(s) is None,
        s.len() > 0 && s[0] != '+' && digits_value(s) == Some(v) && v <= u32::MAX ==> parse_u32(s)
            == Some(v as u32),
        s.len() > 0 && s[0] != '+' && digits_value(s) == Some(v) && v > u32::MAX ==> parse_u32(
            s,
        ) is None,
        s.len() > 0 && s[0] != '+' && digits_value(s) is None ==> parse_u32(s) is None,
        s.len() > 0 && s[0] != '+' ==> parse_u32(seq!['+'] + s) == parse_u32(s),
        parse_u32(seq!['+']) is None,
        s.len() > 0 && s[0] == '+' ==> parse_u32(seq!['+'] + s) is None,
{
    assert((seq!['+'] + s).skip(1) =~= s);
    assert(seq!['+'].skip(1) =~= Seq::<char>::empty());
    if s.len() > 0 && s[0] == '+' {
        law_values_of_digits(s, '0', 0, 0);
    }
}

/// The characters that are white space, by their numbers.
pub proof fn law_white_space(c: char)
    ensures
        is_white_space(c) <==> {
            let n = c as nat;
            ||| 0x9 <= n <= 0xd
            ||| n == 0x20
            ||| n == 0x85
            ||| n == 0xa0
            ||| n == 0x1680
            ||| 0x2000 <= n <= 0x200a
            ||| n == 0x2028
            ||| n == 0x2029
            ||| n == 0x202f
            ||| n == 0x205f
            ||| n == 0x3000
        },
        is_ascii_space(c) <==> {
            let n = c as nat;
            n == 0x20 || n == 0x9 || n == 0xa || n == 0xc || n == 0xd
        },
        is_ascii_space(c) ==> is_white_space(c),
{
}

/// Trimming takes white space, and nothing else, from both ends, and leaves none there.
pub proof fn law_trim(s: Seq<char>) -> (r: (Seq<char>, Seq<char>))
    ensures
        s == r.0 + trim(s) + r.1,
        forall|i: int| 0 <= i < r.0.len() ==> is_white_space(#[trigger] r.0[i]),
        forall|i: int| 0 <= i < r.1.len() ==> is_white_space(#[trigger] r.1[i]),
        trim(s).len() > 0 ==> !is_white_space(trim(s)[0]) && !is_white_space(
            trim(s)[trim(s).len() - 1],
        ),
{
    let a = lemma_trim_start(s);
    let mid = trim_start(s);
    let b = lemma_trim_end(mid);
    assert(s =~= a + trim(s) + b);
    if trim(s).len() > 0 {
        assert(mid[0] == trim(s)[0]);
    }
    (a, b)
}

proof fn lemma_trim_start(s: Seq<char>) -> (a: Seq<char>)
    ensures
        s == a + trim_start(s),
        forall|i: int| 0 <= i < a.len() ==> is_white_space(#[trigger] a[i]),
        trim_start(s).len() > 0 ==> !is_white_space(trim_start(s)[0]),
    decreases s.len(),
{
    if s.len() > 0 && is_white_space(s.first()) {
        let rest = lemma_trim_start(s.drop_first());
        let a = seq![s.first()] + rest;
        assert(s =~= seq![s.first()] + s.drop_first());
        assert(s.drop_first() == rest + trim_start(s));
        assert(seq![s.first()] + (rest + trim_start(s)) =~= a + trim_start(s));
        a
    } else {
        assert(s =~= Seq::<char>::empty() + s);
        Seq::empty()
    }
}

proof fn lemma_trim_end(s: Seq<char>) -> (b: Seq<char>)
    ensures
        s == trim_end(s) + b,
        forall|i: int| 0 <= i < b.len() ==> is_white_space(#[trigger] b[i]),
        trim_end(s).len() > 0 ==> !is_white_space(trim_end(s)[trim_end(s).len() - 1]),
    decreases s.len(),
{
    if s.len() > 0 && is_white_space(s.last()) {
        let rest = lemma_trim_end(s.drop_last());
        let b = rest.push(s.last());
        assert(s =~= s.drop_last().push(s.last()));
        assert(s.drop_last() == trim_end(s) + rest);
        assert((trim_end(s) + rest).push(s.last()) =~= trim_end(s) + b);
        b
    } else {
        assert(s =~= s + Seq::<char>::empty());
        Seq::empty()
    }
}

/// A text without spaces is a single word. The words of two texts with a space between them are
/// those of the first and then those of the second.
pub proof fn law_words(a: Seq<char>, b: Seq<char>, space: char)
    requires
        is_ascii_space(space),
    ensures
        words(Seq::empty()).len() == 0,
        a.len() > 0 && (forall|i: int| 0 <= i < a.len() ==> !is_ascii_space(#[trigger] a[i]))
            ==> words(a) == seq![a],
        words(a.push(space) + b) == words(a) + words(b),
    decreases a.len(),
{
    lemma_word_len(a);
    let s = a.push(space) + b;
    if a.len() == 0 {
        assert(s.drop_first() =~= b);
        assert(words(a) + words(b) =~= words(b));
    } else if is_ascii_space(a.first()) {
        assert(s.drop_first() =~= a.drop_first().push(space) + b);
        assert(s.first() == a.first());
        law_words(a.drop_first(), b, space);
    } else {
        let n = word_len(a) as int;
        lemma_word_ends(a, b, space);
        assert(s.first() == a.first());
        assert(s.take(n) =~= a.take(n));
        assert(s.skip(n) =~= a.skip(n).push(space) + b);
        law_words(a.skip(n), b, space);
        assert(words(s) =~= words(a) + words(b));
        if forall|i: int| 0 <= i < a.len() ==> !is_ascii_space(#[trigger] a[i]) {
            lemma_whole_word(a);
            assert(a.take(n) =~= a);
            assert(a.skip(n) =~= Seq::<char>::empty());
            assert(words(Seq::<char>::empty()).len() == 0);
            assert(words(a) =~= seq![a]);
        }
    }
}

proof fn lemma_whole_word(a: Seq<char>)
    requires
        forall|i: int| 0 <= i < a.len() ==> !is_ascii_space(#[trigger] a[i]),
    ensures
        word_len(a) == a.len(),
    decreases a.len(),
{
    if a.len() > 0 {
        let rest = a.drop_first();
        assert(!is_ascii_space(a[0]));
        assert forall|i: int| 0 <= i < rest.len() implies !is_ascii_space(#[trigger] rest[i]) by {
            assert(!is_ascii_space(a[i + 1]));
        }
        lemma_whole_word(rest);
    }
}

proof fn lemma_word_ends(a: Seq<char>, b: Seq<char>, space: char)
    requires
        is_ascii_space(space),
    ensures
        word_len(a.push(space) + b) == word_len(a),
    decreases a.len(),
{
    let s = a.push(space) + b;
    if a.len() > 0 {
        assert(s.first() == a.first());
        if !is_ascii_space(a.first()) {
            assert(s.drop_first() =~= a.drop_first().push(space) + b);
            lemma_word_ends(a.drop_first(), b, space);
        }
    } else {
        assert(s.first() == space);
    }
}

/// No word is empty, and none has a space in it.
pub proof fn law_words_have_no_spaces(s: Seq<char>, i: int)
    requires
        0 <= i < words(s).len(),
    ensures
        words(s)[i].len() > 0,
        forall|k: int| 0 <= k < words(s)[i].len() ==> !is_ascii_space(#[trigger] words(s)[i][k]),
    decreases s.len(),
{
    lemma_word_len(s);
    if s.len() > 0 {
        if is_ascii_space(s.first()) {
            law_words_have_no_spaces(s.drop_first(), i);
        } else {
            let n = word_len(s) as int;
            if i == 0 {
                lemma_word_has_no_spaces(s);
            } else {
                law_words_have_no_spaces(s.skip(n), i - 1);
            }
        }
    }
}

proof fn lemma_word_has_no_spaces(s: Seq<char>)
    ensures
        word_len(s) <= s.len(),
        forall|k: int| 0 <= k < word_len(s) ==> !is_ascii_space(#[trigger] s[k]),
    decreases s.len(),
{
    if s.len() > 0 && !is_ascii_space(s.first()) {
        let rest = s.drop_first();
        lemma_word_has_no_spaces(rest);
        assert forall|k: int| 0 <= k < word_len(s) implies !is_ascii_space(#[trigger] s[k]) by {
            if k > 0 {
                assert(s[k] == rest[k - 1]);
            }
        }
    }
}

/// Joined texts stand one after the other, with one space between them.
pub proof fn law_join(a: Seq<Seq<char>>, b: Seq<Seq<char>>, w: Seq<char>)
    ensures
        join(Seq::empty()).len() == 0,
        join(seq![w]) == w,
        a.len() > 0 && b.len() > 0 ==> join(a + b) == join(a).push(' ') + join(b),
    decreases b.len(),
{
    if a.len() > 0 && b.len() > 0 {
        let all = a + b;
        assert(all.drop_last() =~= a + b.drop_last());
        assert(all.last() == b.last());
        if b.len() == 1 {
            assert(a + b.drop_last() =~= a);
        } else {
            law_join(a, b.drop_last(), w);
            assert(join(all) =~= join(a).push(' ') + join(b));
        }
    }
}

} // verus!
