//! Splitting and searching, over sequences of any element: characters of a
//! kernel log line as much as bytes of a section.

use vstd::prelude::*;
use vstd::string::StringExecFns;
use vstd::utf8::{decode_utf8, encode_utf8, encode_utf8_decode_utf8, valid_utf8};

verus! {

/// The length of the longest prefix of `s` that holds no separator.
pub open spec fn run_len<A>(s: Seq<A>, separator: spec_fn(A) -> bool) -> nat
    decreases s.len(),
{
    if s.len() == 0 || separator(s[0]) {
        0
    } else {
        1 + run_len(s.drop_first(), separator)
    }
}

/// The maximal runs of elements of `s` that are no separators, in order.
pub open spec fn fields<A>(s: Seq<A>, separator: spec_fn(A) -> bool) -> Seq<Seq<A>>
    decreases s.len(),
    via fields_decreases::<A>
{
    if s.len() == 0 {
        Seq::empty()
    } else if separator(s[0]) {
        fields(s.drop_first(), separator)
    } else {
        let n = run_len(s, separator) as int;
        seq![s.take(n)] + fields(s.skip(n), separator)
    }
}

#[via_fn]
proof fn fields_decreases<A>(s: Seq<A>, separator: spec_fn(A) -> bool) {
    lemma_run_len(s, separator);
}

/// A run stays inside the sequence, holds no separator, and is ended by one or by
/// the end of the sequence.
pub proof fn lemma_run_len<A>(s: Seq<A>, separator: spec_fn(A) -> bool)
    ensures
        run_len(s, separator) <= s.len(),
        forall|i: int| 0 <= i < run_len(s, separator) ==> !separator(#[trigger] s[i]),
        run_len(s, separator) < s.len() ==> separator(s[run_len(s, separator) as int]),
    decreases s.len(),
{
    if s.len() > 0 && !separator(s[0]) {
        let rest = s.drop_first();
        lemma_run_len(rest, separator);
        assert forall|i: int| 0 <= i < run_len(s, separator) implies !separator(
            #[trigger] s[i],
        ) by {
            if i > 0 {
                assert(s[i] == rest[i - 1]);
            }
        }
    }
}

/// Only the true length of the first run is without separators and ended by one.
pub proof fn lemma_run_len_is<A>(s: Seq<A>, separator: spec_fn(A) -> bool, n: int)
    requires
        0 <= n <= s.len(),
        forall|i: int| 0 <= i < n ==> !separator(#[trigger] s[i]),
        n < s.len() ==> separator(s[n]),
    ensures
        run_len(s, separator) == n,
{
    lemma_run_len(s, separator);
    let m = run_len(s, separator) as int;
    if m < n {
        assert(!separator(s[m]));
    } else if n < m {
        assert(!separator(s[n]));
    }
}

/// Leading separators do not count.
pub proof fn lemma_fields_skip<A>(s: Seq<A>, separator: spec_fn(A) -> bool, n: int)
    requires
        0 <= n <= s.len(),
        forall|i: int| 0 <= i < n ==> separator(#[trigger] s[i]),
    ensures
        fields(s, separator) == fields(s.skip(n), separator),
    decreases n,
{
    if n == 0 {
        assert(s.skip(0) =~= s);
    } else {
        let rest = s.drop_first();
        assert forall|i: int| 0 <= i < n - 1 implies separator(#[trigger] rest[i]) by {
            assert(rest[i] == s[i + 1]);
        }
        lemma_fields_skip(rest, separator, n - 1);
        assert(rest.skip(n - 1) =~= s.skip(n));
        assert(separator(s[0]));
    }
}

/// A run is never empty and holds no separator.
pub proof fn lemma_fields_clean<A>(s: Seq<A>, separator: spec_fn(A) -> bool)
    ensures
        forall|k: int|
            0 <= k < fields(s, separator).len() ==> is_run(
                #[trigger] fields(s, separator)[k],
                separator,
            ),
    decreases s.len(),
{
    if s.len() > 0 {
        if separator(s[0]) {
            lemma_fields_clean(s.drop_first(), separator);
            assert(fields(s, separator) == fields(s.drop_first(), separator));
        } else {
            lemma_run_len(s, separator);
            let n = run_len(s, separator) as int;
            lemma_fields_clean(s.skip(n), separator);
            assert(is_run(s.take(n), separator));
            let rest = fields(s.skip(n), separator);
            assert forall|k: int| 0 <= k < fields(s, separator).len() implies is_run(
                #[trigger] fields(s, separator)[k],
                separator,
            ) by {
                if k > 0 {
                    assert(fields(s, separator)[k] == rest[k - 1]);
                }
            }
        }
    }
}

/// Whether `run` is not empty and holds no separator.
pub open spec fn is_run<A>(run: Seq<A>, separator: spec_fn(A) -> bool) -> bool {
    &&& run.len() > 0
    &&& forall|i: int| 0 <= i < run.len() ==> !separator(#[trigger] run[i])
}

/// A run that a separator ends is the first one.
pub proof fn lemma_fields_cons<A>(
    run: Seq<A>,
    end: A,
    rest: Seq<A>,
    separator: spec_fn(A) -> bool,
)
    requires
        is_run(run, separator),
        separator(end),
    ensures
        fields(run + seq![end] + rest, separator) == seq![run] + fields(rest, separator),
{
    let s = run + seq![end] + rest;
    let n = run.len() as int;
    assert forall|i: int| 0 <= i < n implies !separator(#[trigger] s[i]) by {
        assert(s[i] == run[i]);
    }
    lemma_run_len_is(s, separator, n);
    assert(s.take(n) =~= run);
    assert(!separator(s[0]));
    let tail = s.skip(n);
    assert(tail[0] == end);
    lemma_fields_skip(tail, separator, 1);
    assert(tail.skip(1) =~= rest);
}

/// A separator keeps what stands before it apart from what stands behind it.
pub proof fn lemma_fields_append<A>(
    front: Seq<A>,
    between: A,
    back: Seq<A>,
    separator: spec_fn(A) -> bool,
)
    requires
        separator(between),
    ensures
        fields(front + seq![between] + back, separator) == fields(front, separator) + fields(
            back,
            separator,
        ),
    decreases front.len(),
{
    let whole = front + seq![between] + back;
    if front.len() == 0 {
        assert(whole.drop_first() =~= back);
        assert(fields(front, separator) + fields(back, separator) =~= fields(back, separator));
    } else if separator(front[0]) {
        lemma_fields_append(front.drop_first(), between, back, separator);
        assert(whole.drop_first() =~= front.drop_first() + seq![between] + back);
    } else {
        lemma_run_len(front, separator);
        let n = run_len(front, separator) as int;
        assert forall|i: int| 0 <= i < n implies !separator(#[trigger] whole[i]) by {
            assert(whole[i] == front[i]);
        }
        lemma_run_len_is(whole, separator, n);
        lemma_fields_append(front.skip(n), between, back, separator);
        assert(whole.take(n) =~= front.take(n));
        assert(whole.skip(n) =~= front.skip(n) + seq![between] + back);
        assert(fields(whole, separator) =~= fields(front, separator) + fields(back, separator));
    }
}

/// Whether `pattern` stands in `s` at index `i`.
pub open spec fn occurs_at<A>(s: Seq<A>, pattern: Seq<A>, i: int) -> bool {
    &&& 0 <= i
    &&& i + pattern.len() <= s.len()
    &&& s.subrange(i, i + pattern.len()) == pattern
}

/// Whether `i` is the first index at which `pattern` stands in `s`.
pub open spec fn occurs_first_at<A>(s: Seq<A>, pattern: Seq<A>, i: int) -> bool {
    &&& occurs_at(s, pattern, i)
    &&& forall|j: int| 0 <= j < i ==> !occurs_at(s, pattern, j)
}

/// The first index at which `pattern` stands in `s`.
pub open spec fn find<A>(s: Seq<A>, pattern: Seq<A>) -> Option<int> {
    if exists|i: int| occurs_first_at(s, pattern, i) {
        Some(choose|i: int| occurs_first_at(s, pattern, i))
    } else {
        None
    }
}

/// The first occurrence is the one that `find` gives.
pub proof fn lemma_find_is<A>(s: Seq<A>, pattern: Seq<A>, i: int)
    requires
        occurs_first_at(s, pattern, i),
    ensures
        find(s, pattern) == Some(i),
{
    let j = choose|j: int| occurs_first_at(s, pattern, j);
    assert(occurs_first_at(s, pattern, j));
    if j < i {
        assert(!occurs_at(s, pattern, j));
    } else if i < j {
        assert(!occurs_at(s, pattern, i));
    }
}

/// What `find` gives is inside the sequence.
pub proof fn lemma_find_bounds<A>(s: Seq<A>, pattern: Seq<A>)
    ensures
        find(s, pattern) matches Some(i) ==> occurs_first_at(s, pattern, i) && 0 <= i && i
            + pattern.len() <= s.len(),
{
}

/// What follows the first occurrence of a pattern does not move it.
pub proof fn lemma_find_in_front<A>(head: Seq<A>, pattern: Seq<A>, rest: Seq<A>)
    requires
        occurs_first_at(head + pattern, pattern, head.len() as int),
    ensures
        find(head + pattern + rest, pattern) == Some(head.len() as int),
{
    let s = head + pattern + rest;
    let n = head.len() as int;
    assert(s.subrange(n, n + pattern.len()) =~= pattern);
    assert forall|j: int| 0 <= j < n implies !occurs_at(s, pattern, j) by {
        if occurs_at(s, pattern, j) {
            assert((head + pattern).subrange(j, j + pattern.len()) =~= s.subrange(
                j,
                j + pattern.len(),
            ));
            assert(occurs_at(head + pattern, pattern, j));
        }
    }
    lemma_find_is(s, pattern, n);
}

/// A pattern does not begin inside of what does not hold its first element.
pub proof fn lemma_occurs_behind<A>(head: Seq<A>, pattern: Seq<A>)
    requires
        pattern.len() > 0,
        !head.contains(pattern[0]),
    ensures
        occurs_first_at(head + pattern, pattern, head.len() as int),
{
    let s = head + pattern;
    let n = head.len() as int;
    assert(s.subrange(n, n + pattern.len()) =~= pattern);
    assert forall|j: int| 0 <= j < n implies !occurs_at(s, pattern, j) by {
        if occurs_at(s, pattern, j) {
            assert(s.subrange(j, j + pattern.len())[0] == s[j]);
            assert(head[j] == pattern[0]);
        }
    }
}

/// The characters of a string.
pub fn chars_of(s: &str) -> (chars: Vec<char>)
    ensures
        chars@ == s@,
{
    let mut chars: Vec<char> = Vec::new();
    for c in iter: s.chars()
        invariant
            iter.seq() == s@,
            chars@ == s@.take(iter.index()),
    {
        chars.push(c);
        assert(chars@ =~= s@.take(iter.index() + 1));
    }
    assert(chars@ =~= s@);
    chars
}

/// The first index at or behind `from` at which `pattern` stands in `s`, counted
/// from `from`; the search ends at `to`.
pub fn find_chars(s: &Vec<char>, from: usize, to: usize, pattern: &Vec<char>) -> (result: Option<
    usize,
>)
    requires
        from <= to <= s@.len(),
    ensures
        match find(s@.subrange(from as int, to as int), pattern@) {
            Some(i) => result is Some && result->0 == i,
            None => result is None,
        },
{
    let ghost window = s@.subrange(from as int, to as int);
    let width = pattern.len();
    let mut i: usize = 0;
    while width <= to - from - i
        invariant
            from <= to <= s@.len(),
            window == s@.subrange(from as int, to as int),
            width == pattern@.len(),
            i <= to - from,
            forall|j: int| 0 <= j < i ==> !occurs_at(window, pattern@, j),
        decreases to - from - i,
    {
        let mut k: usize = 0;
        while k < width && s[from + i + k] == pattern[k]
            invariant
                from <= to <= s@.len(),
                window == s@.subrange(from as int, to as int),
                width == pattern@.len(),
                i + width <= to - from,
                k <= width,
                forall|m: int| 0 <= m < k ==> window[i + m] == pattern@[m],
            decreases width - k,
        {
            k = k + 1;
        }
        if k == width {
            proof {
                assert(window.subrange(i as int, i + width) =~= pattern@);
                lemma_find_is(window, pattern@, i as int);
            }
            return Some(i);
        }
        proof {
            if occurs_at(window, pattern@, i as int) {
                assert(window.subrange(i as int, i + width)[k as int] == pattern@[k as int]);
            }
        }
        i = i + 1;
    }
    assert forall|j: int| !occurs_at(window, pattern@, j) by {}
    None
}

/// The texts of some strings.
pub open spec fn texts(strings: Seq<String>) -> Seq<Seq<char>> {
    strings.map_values(|s: String| s@)
}

/// The text that `String::from_utf8_lossy` makes of some bytes.
pub uninterp spec fn utf8_lossy(bytes: Seq<u8>) -> Seq<char>;

/// Makes a text of some bytes with `String::from_utf8_lossy`.
///
/// Taken on trust: the text depends on the bytes alone, and well-formed UTF-8 is
/// kept as it is. Where replacement characters stand otherwise is left to the
/// outside function.
#[verifier::external_body]
pub(crate) fn text_from_utf8_lossy(bytes: &[u8]) -> (text: String)
    ensures
        text@ == utf8_lossy(bytes@),
        valid_utf8(bytes@) ==> encode_utf8(text@) == bytes@,
{
    String::from_utf8_lossy(bytes).into_owned()
}

/// Makes a text of some bytes with `std::str::from_utf8`.
///
/// Taken on trust: there is a text if and only if the bytes are well-formed UTF-8,
/// and it is the one that they encode.
#[verifier::external_body]
fn checked_utf8(bytes: &[u8]) -> (text: Option<String>)
    ensures
        text is Some <==> valid_utf8(bytes@),
        text matches Some(found) ==> encode_utf8(found@) == bytes@,
{
    std::str::from_utf8(bytes).ok().map(|text| text.to_owned())
}

/// The text that some bytes encode, if they encode one.
pub open spec fn utf8_text(bytes: Seq<u8>) -> Option<Seq<char>> {
    if valid_utf8(bytes) {
        Some(decode_utf8(bytes))
    } else {
        None
    }
}

/// Makes a text of the bytes that encode it.
pub fn text_from_utf8(bytes: &[u8]) -> (text: Option<String>)
    ensures
        match utf8_text(bytes@) {
            Some(found) => text is Some && text->0@ == found,
            None => text is None,
        },
{
    let text = checked_utf8(bytes);
    proof {
        if text is Some {
            encode_utf8_decode_utf8(text->0@);
        }
    }
    text
}

/// A decimal digit.
pub open spec fn digit(value: nat) -> char {
    (0x30 + value) as char
}

/// A number in decimal notation.
pub open spec fn decimal(value: nat) -> Seq<char>
    decreases value,
{
    if value < 10 {
        seq![digit(value)]
    } else {
        decimal(value / 10).push(digit(value % 10))
    }
}

fn digit_text(value: usize) -> (text: &'static str)
    requires
        value < 10,
    ensures
        text@ == seq![digit(value as nat)],
{
    proof {
        reveal_strlit("0");
        reveal_strlit("1");
        reveal_strlit("2");
        reveal_strlit("3");
        reveal_strlit("4");
        reveal_strlit("5");
        reveal_strlit("6");
        reveal_strlit("7");
        reveal_strlit("8");
        reveal_strlit("9");
    }
    let text = match value {
        0 => "0",
        1 => "1",
        2 => "2",
        3 => "3",
        4 => "4",
        5 => "5",
        6 => "6",
        7 => "7",
        8 => "8",
        _ => "9",
    };
    assert(text@ =~= seq![digit(value as nat)]);
    text
}

/// Writes a number in decimal notation.
pub fn decimal_text(value: usize) -> (text: String)
    ensures
        text@ == decimal(value as nat),
    decreases value,
{
    if value < 10 {
        return digit_text(value).to_owned();
    }
    let mut text = decimal_text(value / 10);
    text.append(digit_text(value % 10));
    assert(text@ =~= decimal(value as nat));
    text
}

/// The number that some decimal digits stand for.
pub open spec fn decimal_value(digits: Seq<char>) -> int
    decreases digits.len(),
{
    if digits.len() == 0 {
        0
    } else {
        10 * decimal_value(digits.drop_last()) + (digits.last() as int - 48)
    }
}

/// A number in decimal notation consists of decimal digits, without a zero in front, and
/// stands for that number.
pub proof fn law_decimal_is_read_back(value: nat)
    ensures
        decimal_value(decimal(value)) == value,
        decimal(value).len() > 0,
        forall|i: int| 0 <= i < decimal(value).len() ==> '0' <= #[trigger] decimal(value)[i] <= '9',
        value > 0 ==> decimal(value)[0] != '0',
    decreases value,
{
    let digits = decimal(value);
    if value >= 10 {
        law_decimal_is_read_back(value / 10);
        assert(digits.drop_last() =~= decimal(value / 10));
        assert(digits[0] == decimal(value / 10)[0]);
    } else {
        assert(digits.drop_last() =~= Seq::empty());
        assert(decimal_value(digits.drop_last()) == 0);
    }
}

/// What `find` gives is an index at which the pattern stands and in front of which it
/// does not; it gives none if and only if the pattern stands nowhere.
pub proof fn law_find_is_first<A>(s: Seq<A>, pattern: Seq<A>)
    ensures
        match find(s, pattern) {
            Some(i) => {
                &&& 0 <= i && i + pattern.len() <= s.len()
                &&& s.subrange(i, i + pattern.len()) == pattern
                &&& forall|j: int|
                    0 <= j < i ==> #[trigger] s.subrange(j, j + pattern.len()) != pattern
            },
            None => forall|j: int|
                0 <= j && j + pattern.len() <= s.len() ==> #[trigger] s.subrange(
                    j,
                    j + pattern.len(),
                ) != pattern,
        },
{
    lemma_find_bounds(s, pattern);
    if let Some(i) = find(s, pattern) {
        assert forall|j: int| 0 <= j < i implies #[trigger] s.subrange(j, j + pattern.len())
            != pattern by {
            assert(!occurs_at(s, pattern, j));
        }
    } else {
        assert forall|j: int| 0 <= j && j + pattern.len() <= s.len() implies #[trigger] s.subrange(
            j,
            j + pattern.len(),
        ) != pattern by {
            if s.subrange(j, j + pattern.len()) == pattern {
                lemma_first_occurrence(s, pattern, j);
            }
        }
    }
}

proof fn lemma_first_occurrence<A>(s: Seq<A>, pattern: Seq<A>, j: int)
    requires
        occurs_at(s, pattern, j),
    ensures
        exists|i: int| occurs_first_at(s, pattern, i),
    decreases j,
{
    if exists|k: int| 0 <= k < j && occurs_at(s, pattern, k) {
        let k = choose|k: int| 0 <= k < j && occurs_at(s, pattern, k);
        lemma_first_occurrence(s, pattern, k);
    } else {
        assert(occurs_first_at(s, pattern, j));
    }
}

/// A text is read back from the bytes that encode it, and from no others.
pub proof fn law_text_is_read_back(text: Seq<char>, bytes: Seq<u8>)
    ensures
        utf8_text(encode_utf8(text)) == Some(text),
        utf8_text(bytes) matches Some(found) ==> encode_utf8(found) == bytes,
        utf8_text(bytes) is None <==> !valid_utf8(bytes),
{
    vstd::utf8::encode_utf8_valid_utf8(text);
    encode_utf8_decode_utf8(text);
    if valid_utf8(bytes) {
        vstd::utf8::decode_utf8_encode_utf8(bytes);
    }
}

/// Nothing has no runs; what holds no separator is one run; and a separator parts the
/// runs in front of it from those behind it.
pub proof fn law_fields_are_runs<A>(
    front: Seq<A>,
    between: A,
    back: Seq<A>,
    separator: spec_fn(A) -> bool,
)
    ensures
        fields(Seq::<A>::empty(), separator) == Seq::<Seq<A>>::empty(),
        front.len() > 0 && (forall|i: int| 0 <= i < front.len() ==> !separator(#[trigger] front[i]))
            ==> fields(front, separator) == seq![front],
        separator(between) ==> fields(front.push(between) + back, separator) == fields(
            front,
            separator,
        ) + fields(back, separator),
{
    if front.len() > 0 && (forall|i: int|
        0 <= i < front.len() ==> !separator(#[trigger] front[i])) {
        lemma_run_len_is(front, separator, front.len() as int);
        assert(!separator(front[0]));
        assert(front.take(front.len() as int) =~= front);
        assert(front.skip(front.len() as int) =~= Seq::empty());
        assert(fields(front.skip(front.len() as int), separator) =~= Seq::empty());
        assert(fields(front, separator) =~= seq![front]);
    }
    if separator(between) {
        lemma_fields_append(front, between, back, separator);
        assert(front.push(between) + back =~= front + seq![between] + back);
    }
}

/// The texts of some strings are those of each, in order.
pub proof fn law_texts_are_in_order(strings: Seq<String>)
    ensures
        texts(strings).len() == strings.len(),
        forall|i: int| 0 <= i < strings.len() ==> #[trigger] texts(strings)[i] == strings[i]@,
{
}

} // verus!
