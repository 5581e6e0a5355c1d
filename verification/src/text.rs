use vstd::prelude::*;

verus! {

/// The character sequences of a list of strings, in order.
pub open spec fn texts(items: Seq<String>) -> Seq<Seq<char>> {
    Seq::new(items.len(), |i: int| items[i]@)
}

/// `s` ends with `suffix`.
pub open spec fn ends_with(s: Seq<char>, suffix: Seq<char>) -> bool {
    suffix.len() <= s.len() && s.subrange(s.len() - suffix.len(), s.len() as int) == suffix
}

/// `s` without its trailing `suffix`, where it has one.
pub open spec fn without_suffix(s: Seq<char>, suffix: Seq<char>) -> Option<Seq<char>> {
    if ends_with(s, suffix) {
        Some(s.subrange(0, s.len() - suffix.len()))
    } else {
        None
    }
}

/// Whether two texts are the same, character by character.
pub fn same_text(a: &str, b: &str) -> (same: bool)
    ensures
        same == (a@ == b@),
{
    let x = String::from_str(a);
    let y = String::from_str(b);
    x == y
}

/// Whether `s` ends with `suffix`.
pub fn has_suffix(s: &str, suffix: &str) -> (found: bool)
    ensures
        found == ends_with(s@, suffix@),
{
    let n = s.unicode_len();
    let m = suffix.unicode_len();
    if m > n {
        false
    } else {
        same_text(s.substring_char(n - m, n), suffix)
    }
}

/// `s` without its trailing `suffix`; `None` where it does not end with it.
pub fn strip_suffix<'a>(s: &'a str, suffix: &str) -> (rest: Option<&'a str>)
    ensures
        rest is Some == ends_with(s@, suffix@),
        rest matches Some(r) ==> Some(r@) == without_suffix(s@, suffix@),
{
    if has_suffix(s, suffix) {
        let n = s.unicode_len();
        let m = suffix.unicode_len();
        Some(s.substring_char(0, n - m))
    } else {
        None
    }
}

/// White space, as Unicode's property of that name has it.
pub open spec fn is_space(c: char) -> bool {
    ('\u{9}' <= c && c <= '\u{d}') || c == ' ' || c == '\u{85}' || c == '\u{a0}' || c == '\u{1680}'
        || ('\u{2000}' <= c && c <= '\u{200a}') || c == '\u{2028}' || c == '\u{2029}' || c
        == '\u{202f}' || c == '\u{205f}' || c == '\u{3000}'
}

/// How many characters of white space a text begins with.
pub open spec fn leading_spaces(s: Seq<char>) -> int
    decreases s.len(),
{
    if s.len() == 0 || !is_space(s[0]) {
        0
    } else {
        1 + leading_spaces(s.drop_first())
    }
}

/// How many characters of white space a text ends with.
pub open spec fn trailing_spaces(s: Seq<char>) -> int
    decreases s.len(),
{
    if s.len() == 0 || !is_space(s.last()) {
        0
    } else {
        1 + trailing_spaces(s.drop_last())
    }
}

/// A text without the white space at its beginning and at its end.
pub open spec fn trimmed(s: Seq<char>) -> Seq<char> {
    if leading_spaces(s) == s.len() {
        Seq::empty()
    } else {
        s.subrange(leading_spaces(s), s.len() - trailing_spaces(s))
    }
}

/// Whether a character is white space.
pub fn is_whitespace(c: char) -> (space: bool)
    ensures
        space == is_space(c),
{
    ('\u{9}' <= c && c <= '\u{d}') || c == ' ' || c == '\u{85}' || c == '\u{a0}' || c == '\u{1680}'
        || ('\u{2000}' <= c && c <= '\u{200a}') || c == '\u{2028}' || c == '\u{2029}' || c
        == '\u{202f}' || c == '\u{205f}' || c == '\u{3000}'
}

/// The text without the white space at its beginning and at its end.
pub fn trim(s: &str) -> (rest: &str)
    ensures
        rest@ == trimmed(s@),
{
    let n = s.unicode_len();
    let mut i: usize = 0;
    assert(s@.skip(0) == s@);
    while i < n && is_whitespace(s.get_char(i))
        invariant
            i <= n,
            n == s@.len(),
            leading_spaces(s@) == i + leading_spaces(s@.skip(i as int)),
        decreases n - i,
    {
        assert(s@.skip(i as int)[0] == s@[i as int]);
        assert(s@.skip(i as int).drop_first() == s@.skip(i + 1));
        i += 1;
    }
    proof {
        if i < n {
            assert(s@.skip(i as int)[0] == s@[i as int]);
        }
    }
    if i == n {
        assert(s@.subrange(n as int, n as int) =~= Seq::<char>::empty());
        return s.substring_char(n, n);
    }
    let mut k: usize = n;
    assert(s@.take(n as int) == s@);
    while k > i + 1 && is_whitespace(s.get_char(k - 1))
        invariant
            i < k <= n,
            n == s@.len(),
            !is_space(s@[i as int]),
            trailing_spaces(s@) == (n - k) + trailing_spaces(s@.take(k as int)),
        decreases k,
    {
        assert(s@.take(k as int).last() == s@[k - 1]);
        assert(s@.take(k as int).drop_last() == s@.take(k - 1));
        k -= 1;
    }
    proof {
        assert(s@.take(k as int).last() == s@[k - 1]);
    }
    s.substring_char(i, k)
}

/// The items of a list written one after another, `sep` between neighbours.
pub open spec fn joined(items: Seq<Seq<char>>, sep: Seq<char>) -> Seq<char>
    decreases items.len(),
{
    if items.len() == 0 {
        Seq::empty()
    } else if items.len() == 1 {
        items[0]
    } else {
        joined(items.drop_last(), sep) + sep + items.last()
    }
}

/// `template` with every occurrence of `marker` replaced by `with`, reading
/// from the left and never matching inside text that was already replaced.
pub open spec fn substituted(template: Seq<char>, marker: Seq<char>, with: Seq<char>) -> Seq<char>
    decreases template.len(),
{
    if marker.len() == 0 || template.len() < marker.len() {
        template
    } else if template.subrange(0, marker.len() as int) == marker {
        with + substituted(template.subrange(marker.len() as int, template.len() as int), marker, with)
    } else {
        seq![template[0]] + substituted(template.subrange(1, template.len() as int), marker, with)
    }
}

/// Writes the items one after another, `sep` between neighbours.
pub fn join(items: &Vec<String>, sep: &str) -> (line: String)
    ensures
        line@ == joined(texts(items@), sep@),
{
    let mut line = String::new();
    let mut i: usize = 0;
    while i < items.len()
        invariant
            i <= items.len(),
            line@ == joined(texts(items@).take(i as int), sep@),
        decreases items.len() - i,
    {
        proof {
            let next = texts(items@).take(i + 1);
            assert(next.drop_last() == texts(items@).take(i as int));
            assert(next.last() == items@[i as int]@);
            if i == 0 {
                assert(joined(texts(items@).take(0), sep@) == Seq::<char>::empty());
            }
        }
        if i > 0 {
            line.append(sep);
        }
        line.append(items[i].as_str());
        i += 1;
    }
    proof {
        assert(texts(items@).take(items.len() as int) == texts(items@));
    }
    line
}

/// Replaces every occurrence of `marker` in `template` by `with`. An empty
/// marker occurs nowhere.
pub fn substitute(template: &str, marker: &str, with: &str) -> (line: String)
    ensures
        line@ == substituted(template@, marker@, with@),
{
    let n = template.unicode_len();
    let m = marker.unicode_len();
    if m == 0 {
        return String::from_str(template);
    }
    let mut line = String::new();
    let mut i: usize = 0;
    proof {
        assert(template@.subrange(0, n as int) == template@);
        assert(line@ + template@ == template@);
        assert(line@ + substituted(template@, marker@, with@) == substituted(
            template@,
            marker@,
            with@,
        ));
    }
    while i < n && n - i >= m
        invariant
            i <= n,
            n == template@.len(),
            m == marker@.len(),
            m > 0,
            line@ + substituted(template@.subrange(i as int, n as int), marker@, with@)
                == substituted(template@, marker@, with@),
        decreases n - i,
    {
        let ghost rest = template@.subrange(i as int, n as int);
        let ghost before = line@;
        if same_text(template.substring_char(i, i + m), marker) {
            proof {
                assert(rest.subrange(0, m as int) == template@.subrange(i as int, i + m));
                assert(rest.subrange(m as int, rest.len() as int) == template@.subrange(i + m, n as int));
            }
            line.append(with);
            i += m;
        } else {
            proof {
                assert(rest.subrange(0, m as int) == template@.subrange(i as int, i + m));
                assert(rest.subrange(1, rest.len() as int) == template@.subrange(i + 1, n as int));
                assert(template@.subrange(i as int, i + 1) == seq![rest[0]]);
            }
            line.append(template.substring_char(i, i + 1));
            i += 1;
        }
        proof {
            let tail = substituted(template@.subrange(i as int, n as int), marker@, with@);
            assert(line@ + tail == before + substituted(rest, marker@, with@));
        }
    }
    line.append(template.substring_char(i, n));
    line
}

/// One of the ten decimal digits.
pub open spec fn is_digit(c: char) -> bool {
    '0' <= c && c <= '9'
}

/// Nothing but decimal digits.
pub open spec fn all_digits(s: Seq<char>) -> bool {
    forall|i: int| 0 <= i < s.len() ==> is_digit(#[trigger] s[i])
}

/// The number that a run of decimal digits writes.
pub open spec fn decimal_value(s: Seq<char>) -> nat
    decreases s.len(),
{
    if s.len() == 0 {
        0
    } else {
        decimal_value(s.drop_last()) * 10 + (s.last() as nat - '0' as nat) as nat
    }
}

/// The number that `s` writes: one or more decimal digits, which a single
/// `+` may precede. Anything else writes no number.
pub open spec fn decimal(s: Seq<char>) -> Option<nat> {
    let digits = if s.len() > 0 && s[0] == '+' {
        s.drop_first()
    } else {
        s
    };
    if digits.len() > 0 && all_digits(digits) {
        Some(decimal_value(digits))
    } else {
        None
    }
}

/// A longer run of digits never writes a smaller number than its prefix.
pub proof fn lemma_decimal_value_grows(s: Seq<char>, k: int)
    requires
        0 <= k <= s.len(),
        all_digits(s),
    ensures
        decimal_value(s.take(k)) <= decimal_value(s),
    decreases s.len(),
{
    if k == s.len() {
        assert(s.take(k) == s);
    } else {
        let shorter = s.drop_last();
        assert(is_digit(s[s.len() - 1]));
        assert(all_digits(shorter));
        lemma_decimal_value_grows(shorter, k);
        assert(shorter.take(k) == s.take(k));
    }
}

/// The decimal digit for a number below ten.
pub open spec fn digit_char(d: nat) -> char {
    if d == 0 {
        '0'
    } else if d == 1 {
        '1'
    } else if d == 2 {
        '2'
    } else if d == 3 {
        '3'
    } else if d == 4 {
        '4'
    } else if d == 5 {
        '5'
    } else if d == 6 {
        '6'
    } else if d == 7 {
        '7'
    } else if d == 8 {
        '8'
    } else {
        '9'
    }
}

/// A number in decimal digits, without a sign or leading zeros.
pub open spec fn decimal_digits(n: nat) -> Seq<char>
    decreases n,
{
    if n < 10 {
        seq![digit_char(n)]
    } else {
        decimal_digits(n / 10).push(digit_char(n % 10))
    }
}

/// Reading the digits of a number gives the number back.
pub proof fn lemma_decimal_round_trip(n: nat)
    ensures
        decimal_digits(n).len() > 0,
        all_digits(decimal_digits(n)),
        decimal_value(decimal_digits(n)) == n,
        decimal(decimal_digits(n)) == Some(n),
    decreases n,
{
    let digits = decimal_digits(n);
    if n < 10 {
        assert(digits.drop_last() =~= Seq::<char>::empty());
        assert(decimal_value(digits.drop_last()) == 0);
        assert(digits.last() == digit_char(n));
    } else {
        lemma_decimal_round_trip(n / 10);
        assert(digits.drop_last() =~= decimal_digits(n / 10));
        assert(digits.last() == digit_char(n % 10));
        assert forall|i: int| 0 <= i < digits.len() implies is_digit(#[trigger] digits[i]) by {
            if i < digits.len() - 1 {
                assert(digits[i] == decimal_digits(n / 10)[i]);
            }
        }
    }
    assert(is_digit(digits[0]));
}

/// The decimal digit for a number below ten, as a text.
fn digit_text(d: usize) -> (text: &'static str)
    requires
        d < 10,
    ensures
        text@ == seq![digit_char(d as nat)],
{
    proof {
        reveal_strlit("0");
        reveal_strlit("1");
        reveal_strlit("2");
        reveal_strlit("3");
        reveal_strlit("4");
        reveal_strlit("5");
        reveal_strlit("6");
        reveal_strlit("7");
        reveal_strlit("8");
        reveal_strlit("9");
    }
    let text = if d == 0 {
        "0"
    } else if d == 1 {
        "1"
    } else if d == 2 {
        "2"
    } else if d == 3 {
        "3"
    } else if d == 4 {
        "4"
    } else if d == 5 {
        "5"
    } else if d == 6 {
        "6"
    } else if d == 7 {
        "7"
    } else if d == 8 {
        "8"
    } else {
        "9"
    };
    assert(text@ =~= seq![digit_char(d as nat)]);
    text
}

/// Writes a number in decimal digits.
pub fn decimal_text(n: usize) -> (text: String)
    ensures
        text@ == decimal_digits(n as nat),
    decreases n,
{
    if n < 10 {
        String::from_str(digit_text(n))
    } else {
        let mut text = decimal_text(n / 10);
        text.append(digit_text(n % 10));
        assert(text@ =~= decimal_digits(n as nat));
        text
    }
}

/// Reads a decimal number: `None` where the text writes none, or one that
/// is too large for the machine.
pub fn parse_decimal(s: &str) -> (number: Option<usize>)
    ensures
        number is Some <==> (decimal(s@) is Some && decimal(s@).unwrap() <= usize::MAX),
        number matches Some(v) ==> decimal(s@) == Some(v as nat),
{
    let n = s.unicode_len();
    let start: usize = if n > 0 && s.get_char(0) == '+' {
        1
    } else {
        0
    };
    if start == n {
        return None;
    }
    let ghost digits = s@.subrange(start as int, n as int);
    proof {
        if start == 1 {
            assert(digits == s@.drop_first());
        } else {
            assert(digits == s@);
        }
    }
    let mut value: usize = 0;
    let mut i: usize = start;
    while i < n
        invariant
            start <= i <= n,
            n == s@.len(),
            digits == s@.subrange(start as int, n as int),
            decimal(s@) == (if all_digits(digits) {
                Some(decimal_value(digits))
            } else {
                None
            }),
            all_digits(digits.take(i - start)),
            value == decimal_value(digits.take(i - start)),
        decreases n - i,
    {
        let c = s.get_char(i);
        let ghost next = digits.take(i - start + 1);
        proof {
            assert(next.drop_last() == digits.take(i - start));
            assert(next.last() == c);
            assert(digits[i - start] == c);
        }
        if !('0' <= c && c <= '9') {
            proof {
                assert(!is_digit(digits[i - start]));
            }
            return None;
        }
        let d: usize = (c as u32 - '0' as u32) as usize;
        if value > (usize::MAX - d) / 10 {
            proof {
                assert(decimal_value(next) > usize::MAX);
                if all_digits(digits) {
                    lemma_decimal_value_grows(digits, i - start + 1);
                }
            }
            return None;
        }
        value = value * 10 + d;
        i += 1;
    }
    proof {
        assert(digits.take(n - start) == digits);
    }
    Some(value)
}

/// `items` followed by each text of `extra` that was not yet there, in order.
pub open spec fn added(items: Seq<Seq<char>>, extra: Seq<Seq<char>>) -> Seq<Seq<char>>
    decreases extra.len(),
{
    if extra.len() == 0 {
        items
    } else {
        let before = added(items, extra.drop_last());
        if before.contains(extra.last()) {
            before
        } else {
            before.push(extra.last())
        }
    }
}

/// The texts of `items` that `gone` does not hold, in order.
pub open spec fn without(items: Seq<Seq<char>>, gone: Seq<Seq<char>>) -> Seq<Seq<char>>
    decreases items.len(),
{
    if items.len() == 0 {
        Seq::empty()
    } else {
        let before = without(items.drop_last(), gone);
        if gone.contains(items.last()) {
            before
        } else {
            before.push(items.last())
        }
    }
}

/// A text is in `added(items, extra)` exactly if it is in one of the two.
pub proof fn lemma_added_contains(items: Seq<Seq<char>>, extra: Seq<Seq<char>>, x: Seq<char>)
    ensures
        added(items, extra).contains(x) <==> items.contains(x) || extra.contains(x),
    decreases extra.len(),
{
    if extra.len() > 0 {
        let shorter = extra.drop_last();
        let before = added(items, shorter);
        lemma_added_contains(items, shorter, x);
        if extra.contains(x) {
            let i = choose|i: int| 0 <= i < extra.len() && extra[i] == x;
            if i < shorter.len() {
                assert(shorter[i] == x);
            }
        }
        if shorter.contains(x) {
            let i = choose|i: int| 0 <= i < shorter.len() && shorter[i] == x;
            assert(extra[i] == x);
        }
        assert(extra[extra.len() - 1] == extra.last());
        if !before.contains(extra.last()) {
            let longer = before.push(extra.last());
            if before.contains(x) {
                let i = choose|i: int| 0 <= i < before.len() && before[i] == x;
                assert(longer[i] == x);
            }
            assert(longer[before.len() as int] == extra.last());
        }
    }
}

/// A text is in `without(items, gone)` exactly if it is in `items` and not in `gone`.
pub proof fn lemma_without_contains(items: Seq<Seq<char>>, gone: Seq<Seq<char>>, x: Seq<char>)
    ensures
        without(items, gone).contains(x) <==> items.contains(x) && !gone.contains(x),
    decreases items.len(),
{
    if items.len() > 0 {
        let shorter = items.drop_last();
        let before = without(shorter, gone);
        lemma_without_contains(shorter, gone, x);
        if items.contains(x) {
            let i = choose|i: int| 0 <= i < items.len() && items[i] == x;
            if i < shorter.len() {
                assert(shorter[i] == x);
            }
        }
        if shorter.contains(x) {
            let i = choose|i: int| 0 <= i < shorter.len() && shorter[i] == x;
            assert(items[i] == x);
        }
        assert(items[items.len() - 1] == items.last());
        if !gone.contains(items.last()) {
            let longer = before.push(items.last());
            if before.contains(x) {
                let i = choose|i: int| 0 <= i < before.len() && before[i] == x;
                assert(longer[i] == x);
            }
            assert(longer[before.len() as int] == items.last());
        }
    }
}

/// Whether `item` is among `items`.
pub fn contains_text(items: &Vec<String>, item: &str) -> (found: bool)
    ensures
        found == texts(items@).contains(item@),
{
    let mut i: usize = 0;
    while i < items.len()
        invariant
            i <= items.len(),
            forall|j: int| 0 <= j < i ==> texts(items@)[j] != item@,
        decreases items.len() - i,
    {
        if same_text(items[i].as_str(), item) {
            assert(texts(items@)[i as int] == item@);
            return true;
        }
        i += 1;
    }
    false
}

/// A copy of the list.
pub fn copy_texts(items: &Vec<String>) -> (copy: Vec<String>)
    ensures
        texts(copy@) == texts(items@),
{
    let mut copy: Vec<String> = Vec::new();
    let mut i: usize = 0;
    while i < items.len()
        invariant
            i <= items.len(),
            copy.len() == i,
            forall|j: int| 0 <= j < i ==> (#[trigger] copy@[j])@ == items@[j]@,
        decreases items.len() - i,
    {
        copy.push(items[i].clone());
        i += 1;
    }
    assert(texts(copy@) =~= texts(items@));
    copy
}

/// Pushes onto `items` each text of `extra` that it does not hold yet.
pub fn add_texts(items: &mut Vec<String>, extra: &Vec<String>)
    ensures
        texts(final(items)@) == added(texts(old(items)@), texts(extra@)),
{
    let mut i: usize = 0;
    while i < extra.len()
        invariant
            i <= extra.len(),
            texts(items@) == added(texts(old(items)@), texts(extra@).take(i as int)),
        decreases extra.len() - i,
    {
        proof {
            let next = texts(extra@).take(i + 1);
            assert(next.drop_last() == texts(extra@).take(i as int));
            assert(next.last() == extra@[i as int]@);
        }
        let ghost before = texts(items@);
        if !contains_text(items, extra[i].as_str()) {
            items.push(extra[i].clone());
            assert(texts(items@) == before.push(extra@[i as int]@));
        }
        i += 1;
    }
    proof {
        assert(texts(extra@).take(extra.len() as int) == texts(extra@));
    }
}

/// The texts of `items` that `gone` does not hold, in order.
pub fn remove_texts(items: &Vec<String>, gone: &Vec<String>) -> (kept: Vec<String>)
    ensures
        texts(kept@) == without(texts(items@), texts(gone@)),
{
    let mut kept: Vec<String> = Vec::new();
    let mut i: usize = 0;
    assert(texts(kept@) == Seq::<Seq<char>>::empty());
    while i < items.len()
        invariant
            i <= items.len(),
            texts(kept@) == without(texts(items@).take(i as int), texts(gone@)),
        decreases items.len() - i,
    {
        proof {
            let next = texts(items@).take(i + 1);
            assert(next.drop_last() == texts(items@).take(i as int));
            assert(next.last() == items@[i as int]@);
        }
        let ghost before = texts(kept@);
        if !contains_text(gone, items[i].as_str()) {
            kept.push(items[i].clone());
            assert(texts(kept@) == before.push(items@[i as int]@));
        }
        i += 1;
    }
    proof {
        assert(texts(items@).take(items.len() as int) == texts(items@));
    }
    kept
}

} // verus!
