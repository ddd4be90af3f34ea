//! The list of definitions whose types must not be changed.
use crate::def_id::{DefId, DefIdSet};
use crate::text::{
    begins_at, chars_of, decimal, find, find_within, is_white_space, law_decimal_parses, law_find,
    law_trim, lemma_find_from, occurs_at,
    parse_u32, parse_u32_within, starts_with, trim, trim_bounds,
};
use vstd::prelude::*;
use vstd::string::*;

verus! {

/// The definition that `s` names, or why it names none.
///
/// A definition is printed as `DefId(0:1 ~ alias1[0dc4]::{use#0})`: the number of the crate, the
/// position in the crate, and a path. The part from ` ~ ` on may be missing.
pub open spec fn named_def(s: Seq<char>) -> Result<DefId, Seq<char>> {
    if !starts_with(s, "DefId("@) {
        Err("does not start with `DefId(`"@)
    } else if s.len() == 6 || s.last() != ')' {
        Err("does not end with `)`"@)
    } else {
        let inner = s.subrange(6, s.len() - 1);
        let numbers = match find(inner, " ~ "@) {
            Some(i) => inner.take(i),
            None => inner,
        };
        match find(numbers, ":"@) {
            None => Err("does not contain `:` in `CrateNum:DefIndex` part"@),
            Some(i) => match parse_u32(numbers.take(i)) {
                None => Err("failed to parse CrateNum"@),
                Some(krate) => match parse_u32(numbers.skip(i + 1)) {
                    None => Err("failed to parse DefIndex"@),
                    Some(index) => Ok(DefId { krate, index }),
                },
            },
        }
    }
}

/// The outcome of parsing `s`, where the compiler prints the definition that `s` names as
/// `rendered`.
pub open spec fn checked_def(s: Seq<char>, def_id: DefId, rendered: Seq<char>) -> Result<
    DefId,
    Seq<char>,
> {
    if rendered == s {
        Ok(def_id)
    } else {
        Err(
            "path mismatch: after parsing input "@ + s + ", obtained a different path "@ + rendered,
        )
    }
}

/// `r` says the same as `m`.
pub open spec fn same_outcome<T>(r: Result<T, String>, m: Result<T, Seq<char>>) -> bool {
    match (r, m) {
        (Ok(x), Ok(y)) => x == y,
        (Err(e), Err(f)) => e@ == f,
        _ => false,
    }
}

/// The definition that `s` names. No other check is made than that `s` has the right form.
pub fn read_def_id(s: &str) -> (r: Result<DefId, String>)
    ensures
        same_outcome(r, named_def(s@)),
{
    let chars = chars_of(s);
    proof {
        reveal_strlit("DefId(");
        reveal_strlit(" ~ ");
        reveal_strlit(":");
    }
    assert(chars@.skip(0) =~= s@);
    if !begins_at(&chars, 0, "DefId(") {
        return Err("does not start with `DefId(`".to_owned());
    }
    if chars.len() == 6 || chars[chars.len() - 1] != ')' {
        return Err("does not end with `)`".to_owned());
    }
    let last = chars.len() - 1;
    let ghost inner = s@.subrange(6, last as int);
    let hi = match find_within(&chars, 6, last, " ~ ") {
        Some(i) => i,
        None => last,
    };
    let ghost numbers = s@.subrange(6, hi as int);
    assert(find(inner, " ~ "@) is Some ==> inner.take(hi - 6) =~= numbers);
    match find_within(&chars, 6, hi, ":") {
        None => Err("does not contain `:` in `CrateNum:DefIndex` part".to_owned()),
        Some(i) => {
            assert(numbers.take(i - 6) =~= s@.subrange(6, i as int));
            assert(numbers.skip(i - 6 + 1) =~= s@.subrange(i + 1, hi as int));
            match parse_u32_within(&chars, 6, i) {
                None => Err("failed to parse CrateNum".to_owned()),
                Some(krate) => match parse_u32_within(&chars, i + 1, hi) {
                    None => Err("failed to parse DefIndex".to_owned()),
                    Some(index) => Ok(DefId { krate, index }),
                },
            }
        },
    }
}

/// Whether `a` and `b` are the same text.
fn same_text(a: &str, b: &str) -> (r: bool)
    ensures
        r == (a@ == b@),
{
    let x = chars_of(a);
    let y = chars_of(b);
    if x.len() != y.len() {
        return false;
    }
    let mut i: usize = 0;
    while i < x.len()
        invariant
            i <= x@.len(),
            x@ == a@,
            y@ == b@,
            x@.len() == y@.len(),
            forall|k: int| 0 <= k < i ==> x@[k] == y@[k],
        decreases x@.len() - i,
    {
        if x[i] != y[i] {
            return false;
        }
        i += 1;
    }
    assert(x@ =~= y@);
    true
}

/// Holds the printed form `rendered` of `def_id` against the text `s` that named it.
pub fn check_def_id(s: &str, def_id: DefId, rendered: &str) -> (r: Result<DefId, String>)
    ensures
        same_outcome(r, checked_def(s@, def_id, rendered@)),
{
    if same_text(rendered, s) {
        Ok(def_id)
    } else {
        let mut message = "path mismatch: after parsing input ".to_owned();
        message.append(s);
        message.append(", obtained a different path ");
        message.append(rendered);
        Err(message)
    }
}

/// The definition that `s` names, provided that `render` prints it as `s` again.
///
/// `render` is how the compiler prints a definition. What it prints besides the two numbers is
/// known to the compiler alone.
pub fn parse_def_id<F: Fn(DefId) -> String>(s: &str, render: &F) -> (r: Result<DefId, String>)
    requires
        forall|d: DefId| #[trigger] call_requires(*render, (d,)),
    ensures
        match named_def(s@) {
            Err(e) => same_outcome(r, Err(e)),
            Ok(d) => exists|p: String|
                #[trigger] call_ensures(*render, (d,), p) && same_outcome(
                    r,
                    checked_def(s@, d, p@),
                ),
        },
{
    match read_def_id(s) {
        Err(e) => Err(e),
        Ok(d) => {
            let p = render(d);
            let r = check_def_id(s, d, p.as_str());
            assert(call_ensures(*render, (d,), p) && same_outcome(r, checked_def(s@, d, p@)));
            r
        },
    }
}

/// `r` is an outcome of [`parse_def_id`] on `s`.
pub open spec fn parse_outcome<F: Fn(DefId) -> String>(
    s: Seq<char>,
    render: F,
    r: Result<DefId, Seq<char>>,
) -> bool {
    match named_def(s) {
        Err(e) => r == Err::<DefId, Seq<char>>(e),
        Ok(d) => exists|p: String|
            #[trigger] call_ensures(render, (d,), p) && r == checked_def(s, d, p@),
    }
}

/// Whether a line names a definition: it is neither blank nor a comment.
pub open spec fn is_entry(line: Seq<char>) -> bool {
    trim(line).len() > 0 && trim(line)[0] != '#'
}

/// A line of the list that names no definition.
pub struct FixedDefsError {
    /// The number of the line, from one on.
    pub line: usize,
    /// What is wrong with it.
    pub message: String,
}

/// The definitions that the entries among `lines` name.
pub open spec fn listed_defs(lines: Seq<Seq<char>>) -> Set<DefId> {
    Set::new(
        |d: DefId|
            exists|i: int|
                0 <= i < lines.len() && is_entry(#[trigger] lines[i]) && named_def(trim(lines[i]))
                    == Ok::<DefId, Seq<char>>(d),
    )
}

/// Every entry among `lines` names a definition that `render` may print in the same way.
pub open spec fn entries_check<F: Fn(DefId) -> String>(lines: Seq<Seq<char>>, render: F) -> bool {
    forall|i: int|
        0 <= i < lines.len() && is_entry(#[trigger] lines[i]) ==> exists|d: DefId|
            named_def(trim(lines[i])) == Ok::<DefId, Seq<char>>(d) && parse_outcome(
                trim(lines[i]),
                render,
                Ok(d),
            )
}

/// The text of each line.
pub open spec fn texts(lines: Seq<String>) -> Seq<Seq<char>> {
    Seq::new(lines.len(), |i: int| lines[i]@)
}

/// The definitions listed in `lines`, one on each line. White space around an entry, blank lines
/// and lines that begin with `#` are ignored. The first entry that cannot be parsed is an error.
pub fn read_fixed_defs_list<F: Fn(DefId) -> String>(lines: &Vec<String>, render: &F) -> (r: Result<
    DefIdSet,
    FixedDefsError,
>)
    requires
        forall|d: DefId| #[trigger] call_requires(*render, (d,)),
    ensures
        match r {
            Ok(set) => entries_check(texts(lines@), *render) && set@ == listed_defs(texts(lines@)),
            Err(e) => {
                &&& 1 <= e.line <= lines@.len()
                &&& entries_check(texts(lines@).take(e.line - 1), *render)
                &&& is_entry(lines@[e.line - 1]@)
                &&& parse_outcome(trim(lines@[e.line - 1]@), *render, Err(e.message@))
            },
        },
{
    let ghost all = texts(lines@);
    let mut def_ids = DefIdSet::new();
    let mut i: usize = 0;
    assert(def_ids@ =~= listed_defs(all.take(0)));
    while i < lines.len()
        invariant
            forall|d: DefId| #[trigger] call_requires(*render, (d,)),
            all == texts(lines@),
            i <= lines@.len(),
            entries_check(all.take(i as int), *render),
            def_ids@ == listed_defs(all.take(i as int)),
        decreases lines@.len() - i,
    {
        let ghost before = all.take(i as int);
        let ghost after = all.take(i + 1);
        let ghost was = def_ids@;
        assert(after =~= before.push(all[i as int]));
        let chars = chars_of(lines[i].as_str());
        let (lo, hi) = trim_bounds(&chars);
        assert(trim(all[i as int]) == chars@.subrange(lo as int, hi as int));
        if lo == hi || chars[lo] == '#' {
            assert(!is_entry(all[i as int]));
            assert forall|d: DefId| listed_defs(after).contains(d) implies was.contains(d) by {
                let k = choose|k: int|
                    0 <= k < after.len() && is_entry(#[trigger] after[k]) && named_def(
                        trim(after[k]),
                    ) == Ok::<DefId, Seq<char>>(d);
                assert(before[k] == after[k]);
            }
        } else {
            let line = lines[i].as_str().substring_char(lo, hi);
            assert(line@ == trim(all[i as int]));
            match parse_def_id(line, render) {
                Err(message) => {
                    assert(parse_outcome(trim(all[i as int]), *render, Err(message@)));
                    return Err(FixedDefsError { line: i + 1, message });
                },
                Ok(d) => {
                    assert(parse_outcome(trim(all[i as int]), *render, Ok(d)));
                    assert(named_def(trim(all[i as int])) == Ok::<DefId, Seq<char>>(d));
                    def_ids.insert(d);
                    assert(after[i as int] == all[i as int]);
                    assert forall|e: DefId| listed_defs(after).contains(e) implies was.insert(
                        d,
                    ).contains(e) by {
                        let k = choose|k: int|
                            0 <= k < after.len() && is_entry(#[trigger] after[k]) && named_def(
                                trim(after[k]),
                            ) == Ok::<DefId, Seq<char>>(e);
                        if k < i {
                            assert(before[k] == after[k]);
                        }
                    }
                },
            }
        }
        assert forall|e: DefId| was.contains(e) implies listed_defs(after).contains(e) by {
            let k = choose|k: int|
                0 <= k < before.len() && is_entry(#[trigger] before[k]) && named_def(
                    trim(before[k]),
                ) == Ok::<DefId, Seq<char>>(e);
            assert(after[k] == before[k]);
        }
        assert(def_ids@ =~= listed_defs(after));
        assert(entries_check(after, *render)) by {
            assert forall|k: int| 0 <= k < after.len() && is_entry(#[trigger] after[k]) implies exists|
                d: DefId,
            |
                named_def(trim(after[k])) == Ok::<DefId, Seq<char>>(d) && parse_outcome(
                    trim(after[k]),
                    *render,
                    Ok(d),
                ) by {
                if k < i {
                    assert(before[k] == after[k]);
                }
            }
        }
        i += 1;
    }
    assert(all.take(i as int) =~= all);
    Ok(def_ids)
}

/// How the compiler prints `d`, with its path where it knows one.
pub open spec fn printed_def(d: DefId, path: Option<Seq<char>>) -> Seq<char> {
    "DefId("@ + decimal(d.krate as nat) + ":"@ + decimal(d.index as nat) + match path {
        Some(p) => " ~ "@ + p,
        None => Seq::empty(),
    } + ")"@
}

/// The printed form of a definition names that definition, whatever its path is.
pub proof fn law_printed_def_is_read_back(d: DefId, path: Option<Seq<char>>)
    ensures
        named_def(printed_def(d, path)) == Ok::<DefId, Seq<char>>(d),
{
    reveal_strlit("DefId(");
    reveal_strlit(":");
    reveal_strlit(" ~ ");
    reveal_strlit(")");
    let k = decimal(d.krate as nat);
    let x = decimal(d.index as nat);
    law_decimal_parses(d.krate);
    law_decimal_parses(d.index);
    let numbers = k + ":"@ + x;
    let suffix = match path {
        Some(p) => " ~ "@ + p,
        None => Seq::empty(),
    };
    let s = printed_def(d, path);
    let inner = s.subrange(6, s.len() - 1);
    assert(s.take(6) =~= "DefId("@);
    assert(s.last() == ')');
    assert(inner =~= numbers + suffix);
    assert forall|i: int| 0 <= i < numbers.len() implies #[trigger] numbers[i] != ' ' by {
        if i < k.len() {
            assert(numbers[i] == k[i]);
        } else if i > k.len() {
            assert(numbers[i] == x[i - k.len() - 1]);
        }
    }
    lemma_find_from(inner, " ~ "@, 0);
    assert forall|i: int| 0 <= i < numbers.len() implies !#[trigger] occurs_at(
        inner,
        " ~ "@,
        i,
    ) by {
        if occurs_at(inner, " ~ "@, i) {
            assert(inner.subrange(i, i + 3)[0] == ' ');
            assert(inner[i] == numbers[i]);
        }
    }
    match path {
        Some(p) => {
            let n = numbers.len() as int;
            assert(inner.subrange(n, n + 3) =~= " ~ "@);
            assert(occurs_at(inner, " ~ "@, n));
            assert(find(inner, " ~ "@) == Some(n));
            assert(inner.take(n) =~= numbers);
        },
        None => {
            assert(inner =~= numbers);
            assert(find(inner, " ~ "@) is None) by {
                match find(inner, " ~ "@) {
                    Some(i) => {
                        assert(occurs_at(inner, " ~ "@, i));
                    },
                    None => {},
                }
            }
        },
    }
    lemma_find_from(numbers, ":"@, 0);
    let c = k.len() as int;
    assert(numbers.subrange(c, c + 1) =~= ":"@);
    assert(occurs_at(numbers, ":"@, c));
    assert forall|i: int| 0 <= i < c implies !#[trigger] occurs_at(
        numbers,
        ":"@,
        i,
    ) by {
        if occurs_at(numbers, ":"@, i) {
            assert(numbers.subrange(i, i + 1)[0] == ':');
            assert(numbers[i] == k[i]);
        }
    }
    assert(find(numbers, ":"@) == Some(c));
    assert(numbers.take(c) =~= k);
    assert(numbers.skip(c + 1) =~= x);
}

/// A text that does not start as a definition does, or does not end as one, names none.
pub proof fn law_texts_that_name_nothing(s: Seq<char>)
    ensures
        !starts_with(s, "DefId("@) ==> named_def(s) == Err::<DefId, Seq<char>>(
            "does not start with `DefId(`"@,
        ),
        starts_with(s, "DefId("@) && (s.len() == 6 || s[s.len() - 1] != ')') ==> named_def(s)
            == Err::<DefId, Seq<char>>("does not end with `)`"@),
        named_def(s) is Ok ==> starts_with(s, "DefId("@) && s.len() > 6 && s[s.len() - 1] == ')',
{
    reveal_strlit("DefId(");
}

/// What a text names that starts and ends as a definition does: `numbers` is all up to the first
/// ` ~ `, and `rest` is what follows. There must be a colon in `numbers`, with a number before the
/// first one and a number after it.
pub proof fn law_named_definitions(
    numbers: Seq<char>,
    rest: Seq<char>,
    krate: Seq<char>,
    index: Seq<char>,
)
    requires
        rest.len() == 0 || starts_with(rest, " ~ "@),
        forall|i: int| i < numbers.len() ==> !#[trigger] occurs_at(numbers + rest, " ~ "@, i),
    ensures
        ({
            let r = named_def("DefId("@ + (numbers + rest) + ")"@);
            &&& !numbers.contains(':') ==> r == Err::<DefId, Seq<char>>(
                "does not contain `:` in `CrateNum:DefIndex` part"@,
            )
            &&& numbers == krate.push(':') + index && !krate.contains(':') ==> r == match (
                parse_u32(krate),
                parse_u32(index),
            ) {
                (None, _) => Err::<DefId, Seq<char>>("failed to parse CrateNum"@),
                (Some(k), None) => Err::<DefId, Seq<char>>("failed to parse DefIndex"@),
                (Some(k), Some(i)) => Ok::<DefId, Seq<char>>(DefId { krate: k, index: i }),
            }
        }),
{
    reveal_strlit("DefId(");
    reveal_strlit(":");
    reveal_strlit(" ~ ");
    reveal_strlit(")");
    let s = "DefId("@ + (numbers + rest) + ")"@;
    let inner = s.subrange(6, s.len() - 1);
    assert(s.take(6) =~= "DefId("@);
    assert(s.last() == ')');
    assert(inner =~= numbers + rest);
    let n = numbers.len() as int;
    law_find(inner, " ~ "@);
    if rest.len() == 0 {
        assert(inner =~= numbers);
        assert(find(inner, " ~ "@) is None) by {
            match find(inner, " ~ "@) {
                Some(i) => {
                    assert(occurs_at(inner, " ~ "@, i));
                },
                None => {},
            }
        }
    } else {
        assert(inner.subrange(n, n + 3) =~= rest.take(3));
        assert(occurs_at(inner, " ~ "@, n));
        assert(find(inner, " ~ "@) == Some(n));
        assert(inner.take(n) =~= numbers);
    }
    law_find(numbers, ":"@);
    if !numbers.contains(':') {
        assert(find(numbers, ":"@) is None) by {
            match find(numbers, ":"@) {
                Some(i) => {
                    assert(occurs_at(numbers, ":"@, i));
                    assert(numbers.subrange(i, i + 1)[0] == ':');
                    assert(numbers[i] == ':');
                },
                None => {},
            }
        }
    }
    if numbers == krate.push(':') + index && !krate.contains(':') {
        let c = krate.len() as int;
        assert(numbers.subrange(c, c + 1) =~= ":"@);
        assert(occurs_at(numbers, ":"@, c));
        assert forall|i: int| i < c implies !#[trigger] occurs_at(numbers, ":"@, i) by {
            if occurs_at(numbers, ":"@, i) {
                assert(numbers.subrange(i, i + 1)[0] == ':');
                assert(numbers[i] == krate[i]);
            }
        }
        assert(find(numbers, ":"@) == Some(c));
        assert(numbers.take(c) =~= krate);
        assert(numbers.skip(c + 1) =~= index);
    }
}

/// A definition is accepted exactly if it is printed as it was written. Otherwise the error has
/// both texts.
pub proof fn law_checked_definitions(s: Seq<char>, d: DefId, rendered: Seq<char>)
    ensures
        rendered == s ==> checked_def(s, d, rendered) == Ok::<DefId, Seq<char>>(d),
        rendered != s ==> checked_def(s, d, rendered) == Err::<DefId, Seq<char>>(
            "path mismatch: after parsing input "@ + s + ", obtained a different path "@ + rendered,
        ),
{
}

/// Two outcomes are the same exactly if both have the same value, or both the same error.
pub proof fn law_same_outcomes(r: Result<DefId, String>, m: Result<DefId, Seq<char>>)
    ensures
        same_outcome(r, m) <==> (r is Ok && m is Ok && r->Ok_0 == m->Ok_0) || (r is Err && m is Err
            && r->Err_0@ == m->Err_0),
{
}

/// A line is an entry exactly if it has a character that is not white space, and the first such one
/// does not begin a comment.
pub proof fn law_entries(line: Seq<char>, k: int)
    ensures
        (forall|i: int| 0 <= i < line.len() ==> is_white_space(#[trigger] line[i])) ==> !is_entry(
            line,
        ),
        0 <= k < line.len() && !is_white_space(line[k]) && (forall|i: int|
            0 <= i < k ==> is_white_space(#[trigger] line[i])) ==> (is_entry(line) <==> line[k]
            != '#'),
{
    let (a, b) = law_trim(line);
    let mid = trim(line);
    if forall|i: int| 0 <= i < line.len() ==> is_white_space(#[trigger] line[i]) {
        if mid.len() > 0 {
            assert(line[a.len() as int] == mid[0]);
        }
    }
    if 0 <= k < line.len() && !is_white_space(line[k]) && (forall|i: int|
        0 <= i < k ==> is_white_space(#[trigger] line[i])) {
        if mid.len() == 0 {
            if k < a.len() {
                assert(line[k] == a[k]);
            } else {
                assert(line[k] == b[k - a.len()]);
            }
        } else {
            let n = a.len() as int;
            assert(line[n] == mid[0]);
            if k < n {
                assert(line[k] == a[k]);
            } else if n < k {
                assert(is_white_space(line[n]));
            }
            assert(k == n);
        }
    }
}

/// A definition is listed exactly if one of the entries names it.
pub proof fn law_listed_definitions(lines: Seq<Seq<char>>, d: DefId, i: int)
    ensures
        0 <= i < lines.len() && is_entry(lines[i]) && named_def(trim(lines[i])) == Ok::<
            DefId,
            Seq<char>,
        >(d) ==> listed_defs(lines).contains(d),
        listed_defs(lines).contains(d) ==> exists|n: int|
            0 <= n < lines.len() && is_entry(#[trigger] lines[n]) && named_def(trim(lines[n]))
                == Ok::<DefId, Seq<char>>(d),
{
}

/// Entries check exactly if each of them names a definition that may be printed as it was written.
pub proof fn law_checked_entries<F: Fn(DefId) -> String>(
    lines: Seq<Seq<char>>,
    render: F,
    i: int,
    s: Seq<char>,
    r: Result<DefId, Seq<char>>,
)
    ensures
        entries_check(lines, render) && 0 <= i < lines.len() && is_entry(lines[i]) ==> exists|
            p: String,
        |
            named_def(trim(lines[i])) is Ok && #[trigger] call_ensures(
                render,
                (named_def(trim(lines[i]))->Ok_0,),
                p,
            ) && p@ == trim(lines[i]),
        named_def(s) is Err ==> (parse_outcome(s, render, r) <==> r == named_def(s)),
        named_def(s) is Ok && parse_outcome(s, render, r) ==> exists|p: String| #[trigger]
            call_ensures(render, (named_def(s)->Ok_0,), p) && r == checked_def(
                s,
                named_def(s)->Ok_0,
                p@,
            ),
{
    if entries_check(lines, render) && 0 <= i < lines.len() && is_entry(lines[i]) {
        let d = choose|d: DefId|
            named_def(trim(lines[i])) == Ok::<DefId, Seq<char>>(d) && parse_outcome(
                trim(lines[i]),
                render,
                Ok(d),
            );
        let p = choose|p: String| #[trigger]
            call_ensures(render, (d,), p) && Ok::<DefId, Seq<char>>(d) == checked_def(
                trim(lines[i]),
                d,
                p@,
            );
        assert(call_ensures(render, (d,), p));
    }
}

} // verus!
