//! Characters, lines, words and numbers, over sequences of characters.
//!
//! A string is modelled by its sequence of characters. Executable helpers work
//! on character slices, so that one conversion at the edge of a parser is
//! enough.
use vstd::prelude::*;
use vstd::slice::slice_subrange;
use vstd::string::*;
use vstd::utf8::*;

verus! {

/// `String::push` appends the given character to the end of the string.
pub assume_specification[ String::push ](s: &mut String, c: char)
    ensures
        final(s)@ == old(s)@.push(c),
;

/// A control code: general category Cc, the 65 code points U+0000 to U+001F and
/// U+007F to U+009F.
pub open spec fn control_char(c: char) -> bool {
    c as u32 <= 0x1f || (0x7f <= c as u32 && c as u32 <= 0x9f)
}

pub fn is_control(c: char) -> (r: bool)
    ensures
        r == control_char(c),
{
    let n: u32 = c as u32;
    n <= 0x1f || (0x7f <= n && n <= 0x9f)
}

/// A character with the Unicode property White_Space.
pub open spec fn white_char(c: char) -> bool {
    let n = c as u32;
    ||| 0x09 <= n <= 0x0d
    ||| n == 0x20
    ||| n == 0x85
    ||| n == 0xa0
    ||| n == 0x1680
    ||| 0x2000 <= n <= 0x200a
    ||| n == 0x2028
    ||| n == 0x2029
    ||| n == 0x202f
    ||| n == 0x205f
    ||| n == 0x3000
}

pub fn is_white(c: char) -> (r: bool)
    ensures
        r == white_char(c),
{
    let n: u32 = c as u32;
    (0x09 <= n && n <= 0x0d) || n == 0x20 || n == 0x85 || n == 0xa0 || n == 0x1680 || (0x2000 <= n
        && n <= 0x200a) || n == 0x2028 || n == 0x2029 || n == 0x202f || n == 0x205f || n == 0x3000
}

/// The lower-case form of an ASCII letter; any other character unchanged.
pub open spec fn lower_char(c: char) -> char {
    if 'A' <= c && c <= 'Z' {
        (c as u32 + 32) as char
    } else {
        c
    }
}

pub fn lower(c: char) -> (r: char)
    ensures
        r == lower_char(c),
{
    if 'A' <= c && c <= 'Z' {
        (c as u8 + 32) as char
    } else {
        c
    }
}

/// Every ASCII letter of the text in lower case.
pub open spec fn lower_text(s: Seq<char>) -> Seq<char> {
    s.map_values(|c: char| lower_char(c))
}

/// Some character of the text is a control code.
pub open spec fn has_control(s: Seq<char>) -> bool {
    exists|i: int| 0 <= i < s.len() && control_char(#[trigger] s[i])
}

/// Some character of the text is white space.
pub open spec fn has_white(s: Seq<char>) -> bool {
    exists|i: int| 0 <= i < s.len() && white_char(#[trigger] s[i])
}

/// The number of bytes of the text in UTF-8.
pub open spec fn utf8_len(s: Seq<char>) -> nat {
    encode_utf8(s).len()
}

/// The contents of each string of a list.
pub open spec fn texts(v: Seq<String>) -> Seq<Seq<char>> {
    v.map_values(|s: String| s@)
}

/// The contents of each character list of a list.
pub open spec fn rows(v: Seq<Vec<char>>) -> Seq<Seq<char>> {
    v.map_values(|s: Vec<char>| s@)
}

pub fn chars_of(s: &str) -> (r: Vec<char>)
    ensures
        r@ == s@,
{
    let mut out: Vec<char> = Vec::new();
    let mut it = s.chars();
    loop
        invariant_except_break
            vstd::std_specs::iter::IteratorSpec::obeys_prophetic_iter_laws(&it),
            vstd::std_specs::iter::IteratorSpec::decrease(&it) is Some,
        invariant
            out@ + vstd::std_specs::iter::IteratorSpec::remaining(&it) == s@,
        ensures
            out@ == s@,
        decreases vstd::std_specs::iter::IteratorSpec::decrease(&it)->0,
    {
        let ghost before = vstd::std_specs::iter::IteratorSpec::remaining(&it);
        match it.next() {
            Some(c) => {
                out.push(c);
                assert(before =~= seq![before[0]] + before.drop_first());
            },
            None => {
                assert(before =~= Seq::<char>::empty());
                break;
            },
        }
    }
    out
}

pub fn string_of(s: &[char]) -> (r: String)
    ensures
        r@ == s@,
{
    let mut out = String::new();
    let mut i: usize = 0;
    while i < s.len()
        invariant
            i <= s@.len(),
            out@ == s@.take(i as int),
        decreases s@.len() - i,
    {
        out.push(s[i]);
        i += 1;
        assert(s@.take(i as int) =~= s@.take(i - 1).push(s@[i - 1]));
    }
    assert(s@.take(i as int) =~= s@);
    out
}

/// Append the characters to the string.
pub fn push_chars(out: &mut String, s: &[char])
    ensures
        final(out)@ == old(out)@ + s@,
{
    let mut i: usize = 0;
    while i < s.len()
        invariant
            i <= s@.len(),
            out@ == old(out)@ + s@.take(i as int),
        decreases s@.len() - i,
    {
        out.push(s[i]);
        i += 1;
        assert(s@.take(i as int) =~= s@.take(i - 1).push(s@[i - 1]));
    }
    assert(s@.take(i as int) =~= s@);
}

pub fn same(a: &[char], b: &[char]) -> (r: bool)
    ensures
        r == (a@ == b@),
{
    if a.len() != b.len() {
        return false;
    }
    let mut i: usize = 0;
    while i < a.len()
        invariant
            a@.len() == b@.len(),
            i <= a@.len(),
            a@.take(i as int) == b@.take(i as int),
        decreases a@.len() - i,
    {
        if a[i] != b[i] {
            return false;
        }
        i += 1;
        assert(a@.take(i as int) =~= a@.take(i - 1).push(a@[i - 1]));
        assert(b@.take(i as int) =~= b@.take(i - 1).push(b@[i - 1]));
    }
    assert(a@.take(i as int) =~= a@);
    assert(b@.take(i as int) =~= b@);
    true
}

pub fn same_str(a: &str, b: &str) -> (r: bool)
    ensures
        r == (a@ == b@),
{
    let x = chars_of(a);
    let y = chars_of(b);
    same(x.as_slice(), y.as_slice())
}

/// Whether the characters are exactly those of the literal.
pub fn is_text(a: &[char], b: &str) -> (r: bool)
    ensures
        r == (a@ == b@),
{
    let y = chars_of(b);
    same(a, y.as_slice())
}

pub fn starts_with(a: &[char], b: &str) -> (r: bool)
    ensures
        r == b@.is_prefix_of(a@),
{
    let y = chars_of(b);
    if y.len() > a.len() {
        return false;
    }
    let head = slice_subrange(a, 0, y.len());
    same(head, y.as_slice())
}

/// The number of bytes of the string, as `str::len` counts.
pub fn byte_len(s: &str) -> (r: usize)
    ensures
        r == utf8_len(s@),
{
    s.as_bytes().len()
}

pub fn any_control(s: &[char]) -> (r: bool)
    ensures
        r == has_control(s@),
{
    let mut i: usize = 0;
    while i < s.len()
        invariant
            i <= s@.len(),
            forall|j: int| 0 <= j < i ==> !control_char(#[trigger] s@[j]),
        decreases s@.len() - i,
    {
        if is_control(s[i]) {
            return true;
        }
        i += 1;
    }
    false
}

pub fn any_white(s: &[char]) -> (r: bool)
    ensures
        r == has_white(s@),
{
    let mut i: usize = 0;
    while i < s.len()
        invariant
            i <= s@.len(),
            forall|j: int| 0 <= j < i ==> !white_char(#[trigger] s@[j]),
        decreases s@.len() - i,
    {
        if is_white(s[i]) {
            return true;
        }
        i += 1;
    }
    false
}

pub fn contains_char(s: &[char], c: char) -> (r: bool)
    ensures
        r == s@.contains(c),
{
    let mut i: usize = 0;
    while i < s.len()
        invariant
            i <= s@.len(),
            forall|j: int| 0 <= j < i ==> #[trigger] s@[j] != c,
        decreases s@.len() - i,
    {
        if s[i] == c {
            return true;
        }
        i += 1;
    }
    false
}

pub fn to_lower(s: &[char]) -> (r: Vec<char>)
    ensures
        r@ == lower_text(s@),
{
    let mut out: Vec<char> = Vec::new();
    let mut i: usize = 0;
    while i < s.len()
        invariant
            i <= s@.len(),
            out@ == lower_text(s@.take(i as int)),
        decreases s@.len() - i,
    {
        out.push(lower(s[i]));
        i += 1;
        assert(s@.take(i as int) =~= s@.take(i - 1).push(s@[i - 1]));
        assert(lower_text(s@.take(i as int)) =~= lower_text(s@.take(i - 1)).push(
            lower_char(s@[i - 1]),
        ));
    }
    assert(s@.take(i as int) =~= s@);
    out
}

/// The position of the first such character, or the length if there is none.
pub open spec fn first_index(s: Seq<char>, c: char) -> int
    decreases s.len(),
{
    if s.len() == 0 {
        0
    } else if s[0] == c {
        0
    } else {
        1 + first_index(s.drop_first(), c)
    }
}

/// The position of the last such character, or -1 if there is none.
pub open spec fn last_index(s: Seq<char>, c: char) -> int
    decreases s.len(),
{
    if s.len() == 0 {
        -1
    } else if s.last() == c {
        s.len() - 1
    } else {
        last_index(s.drop_last(), c)
    }
}

pub proof fn first_index_facts(s: Seq<char>, c: char)
    ensures
        0 <= first_index(s, c) <= s.len(),
        first_index(s, c) < s.len() ==> s[first_index(s, c)] == c,
        forall|j: int| 0 <= j < first_index(s, c) ==> #[trigger] s[j] != c,
        s.contains(c) <==> first_index(s, c) < s.len(),
    decreases s.len(),
{
    if s.len() > 0 && s[0] != c {
        let t = s.drop_first();
        first_index_facts(t, c);
        assert forall|j: int| 0 <= j < first_index(s, c) implies #[trigger] s[j] != c by {
            if j > 0 {
                assert(s[j] == t[j - 1]);
            }
        }
    }
}

pub proof fn first_index_unique(s: Seq<char>, c: char, i: int)
    requires
        0 <= i <= s.len(),
        i < s.len() ==> s[i] == c,
        forall|j: int| 0 <= j < i ==> #[trigger] s[j] != c,
    ensures
        first_index(s, c) == i,
{
    first_index_facts(s, c);
    let k = first_index(s, c);
    if k < i {
        assert(s[k] != c);
    } else if i < k {
        assert(s[i] != c);
    }
}

pub proof fn last_index_facts(s: Seq<char>, c: char)
    ensures
        -1 <= last_index(s, c) < s.len(),
        last_index(s, c) >= 0 ==> s[last_index(s, c)] == c,
        forall|j: int| last_index(s, c) < j < s.len() ==> #[trigger] s[j] != c,
    decreases s.len(),
{
    if s.len() > 0 && s.last() != c {
        last_index_facts(s.drop_last(), c);
        assert forall|j: int| last_index(s, c) < j < s.len() implies #[trigger] s[j] != c by {
            if j < s.len() - 1 {
                assert(s[j] == s.drop_last()[j]);
            }
        }
    }
}

pub fn find_char(s: &[char], c: char) -> (r: usize)
    ensures
        r == first_index(s@, c),
        r <= s@.len(),
{
    let mut i: usize = 0;
    while i < s.len() && s[i] != c
        invariant
            i <= s@.len(),
            forall|j: int| 0 <= j < i ==> #[trigger] s@[j] != c,
        decreases s@.len() - i,
    {
        i += 1;
    }
    proof {
        first_index_unique(s@, c, i as int);
    }
    i
}

pub fn rfind_char(s: &[char], c: char) -> (r: Option<usize>)
    ensures
        match r {
            Some(i) => i == last_index(s@, c) && i < s@.len(),
            None => last_index(s@, c) == -1,
        },
{
    let mut i: usize = s.len();
    while i > 0
        invariant
            i <= s@.len(),
            forall|j: int| i <= j < s@.len() ==> #[trigger] s@[j] != c,
        decreases i,
    {
        if s[i - 1] == c {
            proof {
                last_index_facts(s@, c);
                let k = last_index(s@, c);
                if k > i - 1 {
                    assert(s@[k] != c);
                }
                assert(s@[i - 1] == c);
            }
            return Some(i - 1);
        }
        i -= 1;
    }
    proof {
        last_index_facts(s@, c);
        let k = last_index(s@, c);
        if k >= 0 {
            assert(s@[k] != c);
        }
    }
    None
}

/// The pieces of the text between occurrences of the separator. There is one
/// piece more than there are separators.
pub open spec fn pieces(s: Seq<char>, c: char) -> Seq<Seq<char>>
    decreases s.len(),
{
    let i = first_index(s, c);
    if i < 0 || i >= s.len() {
        seq![s]
    } else {
        seq![s.take(i)] + pieces(s.skip(i + 1), c)
    }
}

/// Texts with the separator between them.
pub open spec fn separated(parts: Seq<Seq<char>>, c: char) -> Seq<char>
    decreases parts.len(),
{
    if parts.len() == 0 {
        seq![]
    } else if parts.len() == 1 {
        parts[0]
    } else {
        parts[0].push(c) + separated(parts.drop_first(), c)
    }
}

/// A text without the separator is one piece.
pub proof fn pieces_alone(s: Seq<char>, c: char)
    requires
        !s.contains(c),
    ensures
        pieces(s, c) == seq![s],
{
    first_index_facts(s, c);
}

/// What stands before the first separator is the first piece.
pub proof fn pieces_front(s: Seq<char>, c: char, rest: Seq<char>)
    requires
        !s.contains(c),
    ensures
        pieces(s.push(c) + rest, c) == seq![s] + pieces(rest, c),
{
    let all = s.push(c) + rest;
    assert forall|j: int| 0 <= j < s.len() implies #[trigger] all[j] != c by {
        assert(all[j] == s[j]);
        assert(s.contains(s[j]));
    }
    first_index_unique(all, c, s.len() as int);
    assert(all.take(s.len() as int) =~= s);
    assert(all.skip(s.len() as int + 1) =~= rest);
}

/// Texts that were put together with a separator, which none of them holds, are the
/// pieces that are found.
pub proof fn separated_reads_back(parts: Seq<Seq<char>>, c: char)
    requires
        parts.len() > 0,
        forall|i: int| 0 <= i < parts.len() ==> !(#[trigger] parts[i]).contains(c),
    ensures
        pieces(separated(parts, c), c) == parts,
    decreases parts.len(),
{
    assert(!parts[0].contains(c));
    if parts.len() == 1 {
        pieces_alone(parts[0], c);
        assert(seq![parts[0]] =~= parts);
    } else {
        let rest = parts.drop_first();
        assert forall|i: int| 0 <= i < rest.len() implies !(#[trigger] rest[i]).contains(c) by {
            assert(!parts[i + 1].contains(c));
        }
        separated_reads_back(rest, c);
        pieces_front(parts[0], c, separated(rest, c));
        assert(seq![parts[0]] + rest =~= parts);
    }
}

/// The pieces of a text hold no separator, and with separators between them they are
/// the text.
pub proof fn pieces_read_back(s: Seq<char>, c: char)
    ensures
        pieces(s, c).len() > 0,
        forall|i: int| 0 <= i < pieces(s, c).len() ==> !(#[trigger] pieces(s, c)[i]).contains(c),
        separated(pieces(s, c), c) == s,
    decreases s.len(),
{
    first_index_facts(s, c);
    let i = first_index(s, c);
    if i < s.len() {
        let rest = s.skip(i + 1);
        pieces_read_back(rest, c);
        let all = pieces(s, c);
        assert(all.drop_first() =~= pieces(rest, c));
        assert forall|k: int| 0 <= k < all.len() implies !(#[trigger] all[k]).contains(c) by {
            if k > 0 {
                assert(all[k] == pieces(rest, c)[k - 1]);
            } else if all[0].contains(c) {
                let j = choose|j: int| 0 <= j < s.take(i).len() && s.take(i)[j] == c;
                assert(s[j] != c);
            }
        }
        assert(s.take(i).push(c) + rest =~= s);
    }
}

/// What stands behind the last separator is the last piece.
pub proof fn pieces_behind(s: Seq<char>, c: char, w: Seq<char>)
    requires
        !w.contains(c),
    ensures
        pieces(s.push(c) + w, c) == pieces(s, c).push(w),
    decreases s.len(),
{
    first_index_facts(s, c);
    let i = first_index(s, c);
    if i < s.len() {
        let head = s.take(i);
        let rest = s.skip(i + 1);
        assert(!head.contains(c)) by {
            if head.contains(c) {
                let j = choose|j: int| 0 <= j < head.len() && head[j] == c;
                assert(s[j] != c);
            }
        }
        pieces_behind(rest, c, w);
        pieces_front(head, c, rest.push(c) + w);
        assert(head.push(c) + (rest.push(c) + w) =~= s.push(c) + w);
        assert(seq![head] + pieces(rest, c).push(w) =~= (seq![head] + pieces(rest, c)).push(w));
    } else {
        pieces_front(s, c, w);
        pieces_alone(w, c);
        assert(seq![s] + seq![w] =~= seq![s].push(w));
    }
}

proof fn separated_push(parts: Seq<Seq<char>>, last: Seq<char>, c: char)
    requires
        parts.len() > 0,
    ensures
        separated(parts.push(last), c) == separated(parts, c).push(c) + last,
    decreases parts.len(),
{
    let all = parts.push(last);
    assert(all.drop_first() =~= parts.drop_first().push(last));
    if parts.len() == 1 {
        assert(all.drop_first() =~= seq![last]);
        assert(separated(all.drop_first(), c) == last);
    } else {
        separated_push(parts.drop_first(), last, c);
        assert(separated(all, c) =~= separated(parts, c).push(c) + last);
    }
}

/// Putting one more text behind others adds a separator and the text.
pub proof fn separated_grows(parts: Seq<Seq<char>>, c: char)
    requires
        parts.len() > 1,
    ensures
        separated(parts, c) == separated(parts.drop_last(), c).push(c) + parts.last(),
{
    separated_push(parts.drop_last(), parts.last(), c);
    assert(parts.drop_last().push(parts.last()) =~= parts);
}

pub fn split_on(s: &[char], c: char) -> (r: Vec<Vec<char>>)
    ensures
        rows(r@) == pieces(s@, c),
        r@.len() >= 1,
{
    let mut out: Vec<Vec<char>> = Vec::new();
    let mut from: usize = 0;
    assert(s@.skip(0) =~= s@);
    assert(rows(out@) =~= Seq::<Seq<char>>::empty());
    loop
        invariant_except_break
            from <= s@.len(),
            rows(out@) + pieces(s@.skip(from as int), c) == pieces(s@, c),
        ensures
            rows(out@) == pieces(s@, c),
            out@.len() >= 1,
        decreases s@.len() - from,
    {
        let rest = slice_subrange(s, from, s.len());
        assert(rest@ =~= s@.skip(from as int));
        let i = find_char(rest, c);
        let piece = slice_subrange(rest, 0, i);
        let ghost before = out@;
        let mut copy: Vec<char> = Vec::new();
        copy.extend_from_slice(piece);
        assert(copy@ =~= rest@.take(i as int));
        out.push(copy);
        assert(rows(out@) =~= rows(before).push(rest@.take(i as int)));
        if i >= rest.len() {
            assert(rest@.take(i as int) =~= rest@);
            assert(pieces(rest@, c) =~= seq![rest@]);
            assert(rows(out@) =~= rows(before) + pieces(rest@, c));
            break;
        }
        from = from + i + 1;
        assert(rest@.skip(i + 1) =~= s@.skip(from as int));
        assert(rows(out@) + pieces(s@.skip(from as int), c) =~= rows(before) + pieces(rest@, c));
    }
    out
}

/// The text without the white space at its start.
pub open spec fn trim_start(s: Seq<char>) -> Seq<char>
    decreases s.len(),
{
    if s.len() > 0 && white_char(s[0]) {
        trim_start(s.drop_first())
    } else {
        s
    }
}

/// The text without the white space at its end.
pub open spec fn trim_end(s: Seq<char>) -> Seq<char>
    decreases s.len(),
{
    if s.len() > 0 && white_char(s.last()) {
        trim_end(s.drop_last())
    } else {
        s
    }
}

/// The text without the white space at both of its ends.
pub open spec fn trim_both(s: Seq<char>) -> Seq<char> {
    trim_end(trim_start(s))
}

pub fn trimmed_start(s: &[char]) -> (r: &[char])
    ensures
        r@ == trim_start(s@),
{
    let mut i: usize = 0;
    assert(s@.skip(0) =~= s@);
    while i < s.len() && is_white(s[i])
        invariant
            i <= s@.len(),
            trim_start(s@.skip(i as int)) == trim_start(s@),
        decreases s@.len() - i,
    {
        assert(s@.skip(i as int).drop_first() =~= s@.skip(i + 1));
        i += 1;
    }
    let r = slice_subrange(s, i, s.len());
    assert(r@ =~= s@.skip(i as int));
    r
}

pub fn trimmed_end(s: &[char]) -> (r: &[char])
    ensures
        r@ == trim_end(s@),
{
    let mut n: usize = s.len();
    assert(s@.take(n as int) =~= s@);
    while n > 0 && is_white(s[n - 1])
        invariant
            n <= s@.len(),
            trim_end(s@.take(n as int)) == trim_end(s@),
        decreases n,
    {
        assert(s@.take(n as int).drop_last() =~= s@.take(n - 1));
        n -= 1;
    }
    let r = slice_subrange(s, 0, n);
    assert(r@ =~= s@.take(n as int));
    r
}

pub fn trimmed(s: &[char]) -> (r: &[char])
    ensures
        r@ == trim_both(s@),
{
    trimmed_end(trimmed_start(s))
}

/// Whether the character is an ASCII digit.
pub open spec fn digit_char(c: char) -> bool {
    '0' <= c && c <= '9'
}

/// The value that the digits denote in base ten.
pub open spec fn digits_value(s: Seq<char>) -> nat
    decreases s.len(),
{
    if s.len() == 0 {
        0
    } else {
        digits_value(s.drop_last()) * 10 + (s.last() as u32 - 48) as nat
    }
}

/// All of the characters are ASCII digits, and there is at least one.
pub open spec fn all_digits(s: Seq<char>) -> bool {
    s.len() > 0 && forall|i: int| 0 <= i < s.len() ==> digit_char(#[trigger] s[i])
}

/// The digits of a written number, behind an optional plus sign.
pub open spec fn unsigned(s: Seq<char>) -> Seq<char> {
    if s.len() > 0 && s[0] == '+' {
        s.drop_first()
    } else {
        s
    }
}

/// An unsigned decimal number of at most `max`, with an optional plus sign.
pub open spec fn number(s: Seq<char>, max: nat) -> Option<nat> {
    let d = unsigned(s);
    if all_digits(d) && digits_value(d) <= max {
        Some(digits_value(d))
    } else {
        None
    }
}

/// Why a text is no number.
#[derive(Clone, Copy, Debug, PartialEq, Eq, Structural)]
pub enum NumberError {
    Empty,
    Digit,
    TooLarge,
}

pub open spec fn number_error_text(error: NumberError) -> Seq<char> {
    match error {
        NumberError::Empty => "cannot parse integer from empty string"@,
        NumberError::Digit => "invalid digit found in string"@,
        NumberError::TooLarge => "number too large to fit in target type"@,
    }
}

impl NumberError {
    pub fn message(self) -> (r: &'static str)
        ensures
            r@ == number_error_text(self),
    {
        match self {
            NumberError::Empty => "cannot parse integer from empty string",
            NumberError::Digit => "invalid digit found in string",
            NumberError::TooLarge => "number too large to fit in target type",
        }
    }
}

/// The first fault of digits, from the left.
pub open spec fn digits_fault(d: Seq<char>, max: nat) -> Option<NumberError>
    decreases d.len(),
{
    if d.len() == 0 {
        None
    } else {
        match digits_fault(d.drop_last(), max) {
            Some(error) => Some(error),
            None => if !digit_char(d.last()) {
                Some(NumberError::Digit)
            } else if digits_value(d) > max {
                Some(NumberError::TooLarge)
            } else {
                None
            },
        }
    }
}

/// Why a text is no number of at most `max`. A lone sign is no digit.
pub open spec fn number_fault(s: Seq<char>, max: nat) -> Option<NumberError> {
    if s.len() == 0 {
        Some(NumberError::Empty)
    } else if unsigned(s).len() == 0 {
        Some(NumberError::Digit)
    } else {
        digits_fault(unsigned(s), max)
    }
}

/// A number, or why there is none.
pub open spec fn read_number(s: Seq<char>, max: nat) -> Result<nat, NumberError> {
    match number_fault(s, max) {
        Some(error) => Err(error),
        None => Ok(digits_value(unsigned(s))),
    }
}

proof fn digits_fault_stays(d: Seq<char>, max: nat, n: int)
    requires
        0 <= n <= d.len(),
        digits_fault(d.take(n), max) is Some,
    ensures
        digits_fault(d, max) == digits_fault(d.take(n), max),
    decreases d.len(),
{
    if n == d.len() {
        assert(d.take(n) =~= d);
    } else {
        assert(d.drop_last().take(n) =~= d.take(n));
        digits_fault_stays(d.drop_last(), max, n);
    }
}

proof fn digits_are_sound(d: Seq<char>, max: nat)
    ensures
        digits_fault(d, max) is None <==> (forall|i: int|
            0 <= i < d.len() ==> digit_char(#[trigger] d[i])) && (d.len() > 0 ==> digits_value(d)
            <= max),
    decreases d.len(),
{
    if d.len() > 0 {
        let front = d.drop_last();
        digits_are_sound(front, max);
        digits_value_prefix(d, d.len() - 1);
        assert(d.take(d.len() - 1) =~= front);
        if digits_fault(d, max) is None {
            assert forall|i: int| 0 <= i < d.len() implies digit_char(#[trigger] d[i]) by {
                if i < d.len() - 1 {
                    assert(d[i] == front[i]);
                }
            }
        }
        if forall|i: int| 0 <= i < d.len() ==> digit_char(#[trigger] d[i]) {
            assert forall|i: int| 0 <= i < front.len() implies digit_char(#[trigger] front[i]) by {
                assert(front[i] == d[i]);
            }
            assert(digit_char(d[d.len() - 1]));
        }
    }
}

/// A text is a number exactly where it has no fault.
pub proof fn numbers_have_no_fault(s: Seq<char>, max: nat)
    ensures
        number(s, max) == match read_number(s, max) {
            Ok(n) => Some(n),
            Err(_) => None,
        },
{
    digits_are_sound(unsigned(s), max);
}

pub proof fn digits_value_prefix(s: Seq<char>, n: int)
    requires
        0 <= n <= s.len(),
    ensures
        digits_value(s.take(n)) <= digits_value(s),
    decreases s.len() - n,
{
    if n == s.len() {
        assert(s.take(n) =~= s);
    } else {
        digits_value_prefix(s, n + 1);
        assert(s.take(n + 1).drop_last() =~= s.take(n));
    }
}

pub fn parse_number(s: &[char], max: u64) -> (r: Result<u64, NumberError>)
    ensures
        match r {
            Ok(n) => read_number(s@, max as nat) == Ok::<nat, NumberError>(n as nat) && number(
                s@,
                max as nat,
            ) == Some(n as nat) && n <= max,
            Err(error) => read_number(s@, max as nat) == Err::<nat, NumberError>(error) && number(
                s@,
                max as nat,
            ) is None,
        },
{
    proof {
        numbers_have_no_fault(s@, max as nat);
    }
    if s.len() == 0 {
        return Err(NumberError::Empty);
    }
    let from: usize = if s[0] == '+' {
        1
    } else {
        0
    };
    let d = slice_subrange(s, from, s.len());
    assert(d@ =~= unsigned(s@));
    if d.len() == 0 {
        return Err(NumberError::Digit);
    }
    let mut value: u64 = 0;
    let mut i: usize = 0;
    while i < d.len()
        invariant
            i <= d@.len(),
            value <= max,
            value == digits_value(d@.take(i as int)),
            digits_fault(d@.take(i as int), max as nat) is None,
            d@ == unsigned(s@),
            d@.len() > 0,
            s@.len() > 0,
            number(s@, max as nat) == match read_number(s@, max as nat) {
                Ok(n) => Some(n),
                Err(_) => None,
            },
        decreases d@.len() - i,
    {
        let c = d[i];
        proof {
            assert(d@.take(i + 1).drop_last() =~= d@.take(i as int));
            assert(d@.take(i + 1).last() == c);
        }
        if !('0' <= c && c <= '9') {
            proof {
                digits_fault_stays(d@, max as nat, i + 1);
            }
            return Err(NumberError::Digit);
        }
        let digit: u64 = (c as u32 - 48) as u64;
        if value > max / 10 || (value == max / 10 && digit > max % 10) {
            proof {
                assert(digits_value(d@.take(i + 1)) > max);
                digits_fault_stays(d@, max as nat, i + 1);
            }
            return Err(NumberError::TooLarge);
        }
        value = value * 10 + digit;
        i += 1;
    }
    assert(d@.take(i as int) =~= d@);
    Ok(value)
}

/// The decimal digits of a number, without leading zeros.
pub open spec fn decimal(n: nat) -> Seq<char>
    decreases n,
{
    if n < 10 {
        seq![(48 + n) as char]
    } else {
        decimal(n / 10).push((48 + n % 10) as char)
    }
}

/// Writing a number and reading it back gives the number.
pub proof fn decimal_reads_back(n: nat)
    ensures
        all_digits(decimal(n)),
        digits_value(decimal(n)) == n,
        decimal(n)[0] != '+',
        number(decimal(n), n) == Some(n),
    decreases n,
{
    reveal_with_fuel(digits_value, 2);
    if n < 10 {
        assert(decimal(n).drop_last() =~= Seq::<char>::empty());
    } else {
        decimal_reads_back(n / 10);
        assert(decimal(n).drop_last() =~= decimal(n / 10));
    }
}

pub fn to_decimal(n: u64) -> (r: Vec<char>)
    ensures
        r@ == decimal(n as nat),
    decreases n,
{
    let d: u8 = 48 + (n % 10) as u8;
    if n < 10 {
        let mut out: Vec<char> = Vec::new();
        out.push(d as char);
        assert(out@ =~= decimal(n as nat));
        out
    } else {
        let mut out = to_decimal(n / 10);
        out.push(d as char);
        out
    }
}

/// Append the decimal digits of the number.
pub fn push_decimal(out: &mut String, n: u64)
    ensures
        final(out)@ == old(out)@ + decimal(n as nat),
{
    let d = to_decimal(n);
    push_chars(out, d.as_slice());
}

/// The number of characters before the first white space.
pub open spec fn word_len(s: Seq<char>) -> nat
    decreases s.len(),
{
    if s.len() == 0 || white_char(s[0]) {
        0
    } else {
        1 + word_len(s.drop_first())
    }
}

/// The runs of characters between white space.
pub open spec fn words(s: Seq<char>) -> Seq<Seq<char>>
    decreases s.len(),
{
    let n = word_len(s);
    if s.len() == 0 {
        seq![]
    } else if n == 0 || n > s.len() {
        words(s.drop_first())
    } else {
        seq![s.take(n as int)] + words(s.skip(n as int))
    }
}

pub proof fn word_len_facts(s: Seq<char>)
    ensures
        word_len(s) <= s.len(),
        word_len(s) < s.len() ==> white_char(s[word_len(s) as int]),
        forall|j: int| 0 <= j < word_len(s) ==> !white_char(#[trigger] s[j]),
    decreases s.len(),
{
    if s.len() > 0 && !white_char(s[0]) {
        let t = s.drop_first();
        word_len_facts(t);
        assert forall|j: int| 0 <= j < word_len(s) implies !white_char(#[trigger] s[j]) by {
            if j > 0 {
                assert(s[j] == t[j - 1]);
            }
        }
    }
}

pub proof fn word_len_unique(s: Seq<char>, n: int)
    requires
        0 <= n <= s.len(),
        n < s.len() ==> white_char(s[n]),
        forall|j: int| 0 <= j < n ==> !white_char(#[trigger] s[j]),
    ensures
        word_len(s) == n,
{
    word_len_facts(s);
    let k = word_len(s) as int;
    if k < n {
        assert(!white_char(s[k]));
    } else if n < k {
        assert(!white_char(s[n]));
    }
}

pub fn split_words(s: &[char]) -> (r: Vec<Vec<char>>)
    ensures
        rows(r@) == words(s@),
{
    let mut out: Vec<Vec<char>> = Vec::new();
    let mut from: usize = 0;
    assert(s@.skip(0) =~= s@);
    assert(rows(out@) + words(s@) =~= words(s@));
    while from < s.len()
        invariant
            from <= s@.len(),
            rows(out@) + words(s@.skip(from as int)) == words(s@),
        decreases s@.len() - from,
    {
        let ghost rest = s@.skip(from as int);
        let mut to: usize = from;
        while to < s.len() && !is_white(s[to])
            invariant
                from <= to <= s@.len(),
                forall|j: int| from <= j < to ==> !white_char(#[trigger] s@[j]),
            decreases s@.len() - to,
        {
            to += 1;
        }
        let ghost n = to - from;
        proof {
            assert forall|j: int| 0 <= j < n implies !white_char(#[trigger] rest[j]) by {
                assert(rest[j] == s@[from + j]);
            }
            word_len_unique(rest, n);
        }
        if to == from {
            assert(rest.drop_first() =~= s@.skip(from + 1));
            from += 1;
        } else {
            let piece = slice_subrange(s, from, to);
            let mut copy: Vec<char> = Vec::new();
            copy.extend_from_slice(piece);
            assert(copy@ =~= rest.take(n));
            let ghost before = out@;
            out.push(copy);
            proof {
                assert(rows(out@) =~= rows(before).push(rest.take(n)));
                assert(rest.skip(n) =~= s@.skip(to as int));
                let more = words(s@.skip(to as int));
                assert(rows(out@) + more =~= rows(before) + (seq![rest.take(n)] + more));
            }
            from = to;
        }
    }
    assert(s@.skip(from as int) =~= Seq::<char>::empty());
    assert(rows(out@) + Seq::<Seq<char>>::empty() =~= rows(out@));
    out
}

/// The text without a carriage return at its end.
pub open spec fn strip_return(s: Seq<char>) -> Seq<char> {
    if s.len() > 0 && s.last() == '\r' {
        s.drop_last()
    } else {
        s
    }
}

/// The lines of the text. A line ends with a line feed, and a carriage return
/// before it belongs to the ending; the last line needs no ending.
pub open spec fn lines(s: Seq<char>) -> Seq<Seq<char>>
    decreases s.len(),
{
    let i = first_index(s, '\n');
    if s.len() == 0 {
        seq![]
    } else if i < 0 || i >= s.len() {
        seq![s]
    } else {
        seq![strip_return(s.take(i))] + lines(s.skip(i + 1))
    }
}

pub fn split_lines(s: &[char]) -> (r: Vec<Vec<char>>)
    ensures
        rows(r@) == lines(s@),
{
    let mut out: Vec<Vec<char>> = Vec::new();
    let mut from: usize = 0;
    assert(s@.skip(0) =~= s@);
    assert(rows(out@) + lines(s@) =~= lines(s@));
    while from < s.len()
        invariant
            from <= s@.len(),
            rows(out@) + lines(s@.skip(from as int)) == lines(s@),
        decreases s@.len() - from,
    {
        let rest = slice_subrange(s, from, s.len());
        assert(rest@ =~= s@.skip(from as int));
        let i = find_char(rest, '\n');
        let ghost before = out@;
        let mut copy: Vec<char> = Vec::new();
        if i >= rest.len() {
            copy.extend_from_slice(rest);
            assert(copy@ =~= rest@);
            out.push(copy);
            from = s.len();
            proof {
                assert(rows(out@) =~= rows(before).push(rest@));
                assert(s@.skip(from as int) =~= Seq::<char>::empty());
                assert(rows(out@) + Seq::<Seq<char>>::empty() =~= rows(before) + seq![rest@]);
            }
        } else {
            let end: usize = if i > 0 && rest[i - 1] == '\r' {
                i - 1
            } else {
                i
            };
            let piece = slice_subrange(rest, 0, end);
            copy.extend_from_slice(piece);
            assert(copy@ =~= strip_return(rest@.take(i as int)));
            out.push(copy);
            from = from + i + 1;
            proof {
                let shown = strip_return(rest@.take(i as int));
                assert(rows(out@) =~= rows(before).push(shown));
                assert(rest@.skip(i + 1) =~= s@.skip(from as int));
                let more = lines(s@.skip(from as int));
                assert(rows(out@) + more =~= rows(before) + (seq![shown] + more));
            }
        }
    }
    assert(s@.skip(from as int) =~= Seq::<char>::empty());
    assert(rows(out@) + Seq::<Seq<char>>::empty() =~= rows(out@));
    out
}

/// The order of texts: by the first character in which they differ, or a proper
/// prefix first.
pub open spec fn text_less(a: Seq<char>, b: Seq<char>) -> bool
    decreases a.len(),
{
    if b.len() == 0 {
        false
    } else if a.len() == 0 {
        true
    } else if a[0] == b[0] {
        text_less(a.drop_first(), b.drop_first())
    } else {
        a[0] < b[0]
    }
}

pub proof fn text_less_irreflexive(a: Seq<char>)
    ensures
        !text_less(a, a),
    decreases a.len(),
{
    if a.len() > 0 {
        text_less_irreflexive(a.drop_first());
    }
}

pub proof fn text_less_transitive(a: Seq<char>, b: Seq<char>, c: Seq<char>)
    requires
        text_less(a, b),
        text_less(b, c),
    ensures
        text_less(a, c),
    decreases a.len(),
{
    if a.len() > 0 && b.len() > 0 && c.len() > 0 && a[0] == b[0] && b[0] == c[0] {
        text_less_transitive(a.drop_first(), b.drop_first(), c.drop_first());
    }
}

pub proof fn text_less_total(a: Seq<char>, b: Seq<char>)
    ensures
        text_less(a, b) || text_less(b, a) || a == b,
    decreases a.len(),
{
    if a.len() > 0 && b.len() > 0 && a[0] == b[0] {
        text_less_total(a.drop_first(), b.drop_first());
        assert(a =~= seq![a[0]] + a.drop_first());
        assert(b =~= seq![b[0]] + b.drop_first());
    } else if a.len() == 0 && b.len() == 0 {
        assert(a =~= b);
    }
}

pub fn is_less(a: &[char], b: &[char]) -> (r: bool)
    ensures
        r == text_less(a@, b@),
{
    let mut i: usize = 0;
    assert(a@.skip(0) =~= a@);
    assert(b@.skip(0) =~= b@);
    while i < a.len() && i < b.len()
        invariant
            i <= a@.len(),
            i <= b@.len(),
            text_less(a@, b@) == text_less(a@.skip(i as int), b@.skip(i as int)),
        decreases a@.len() - i,
    {
        assert(a@.skip(i as int)[0] == a@[i as int]);
        assert(b@.skip(i as int)[0] == b@[i as int]);
        if a[i] != b[i] {
            return a[i] < b[i];
        }
        assert(a@.skip(i as int).drop_first() =~= a@.skip(i + 1));
        assert(b@.skip(i as int).drop_first() =~= b@.skip(i + 1));
        i += 1;
    }
    i < b.len()
}

/// Texts in order, each once.
pub open spec fn ordered_texts(v: Seq<Seq<char>>) -> bool {
    forall|i: int, j: int| 0 <= i < j < v.len() ==> text_less(#[trigger] v[i], #[trigger] v[j])
}

/// Put a text at its place in an ordered list, unless it is there already.
pub fn insert_text(v: &mut Vec<String>, s: &str)
    requires
        ordered_texts(texts(old(v)@)),
    ensures
        ordered_texts(texts(final(v)@)),
        forall|t: Seq<char>|
            #[trigger] texts(final(v)@).contains(t) <==> texts(old(v)@).contains(t) || t == s@,
{
    let ghost before = texts(v@);
    let name = chars_of(s);
    let mut at: usize = 0;
    while at < v.len()
        invariant_except_break
            at <= v@.len(),
        invariant
            before == texts(v@),
            before == texts(old(v)@),
            at <= v@.len(),
            name@ == s@,
            ordered_texts(before),
            forall|k: int| 0 <= k < at ==> text_less(#[trigger] before[k], s@),
        ensures
            at < v@.len() ==> !text_less(before[at as int], s@),
        decreases v@.len() - at,
    {
        let other = chars_of(v[at].as_str());
        assert(before[at as int] == other@);
        if !is_less(other.as_slice(), name.as_slice()) {
            break;
        }
        at += 1;
    }
    if at < v.len() {
        let other = chars_of(v[at].as_str());
        assert(before[at as int] == other@);
        if same(other.as_slice(), name.as_slice()) {
            assert(before.contains(s@));
            return ;
        }
        proof {
            text_less_total(before[at as int], s@);
        }
    }
    v.insert(at, s.to_owned());
    proof {
        let now = texts(v@);
        assert(now =~= before.insert(at as int, s@));
        assert forall|i: int, j: int| 0 <= i < j < now.len() implies text_less(
            #[trigger] now[i],
            #[trigger] now[j],
        ) by {
            if i < at && j > at {
                assert(now[i] == before[i] && now[j] == before[j - 1]);
            } else if i < at && j < at {
                assert(now[i] == before[i] && now[j] == before[j]);
            } else if i > at {
                assert(now[i] == before[i - 1] && now[j] == before[j - 1]);
            } else if i == at {
                assert(now[j] == before[j - 1]);
                if j - 1 > at {
                    assert(text_less(before[at as int], before[j - 1]));
                    text_less_transitive(s@, before[at as int], before[j - 1]);
                }
            } else {
                assert(now[i] == before[i]);
            }
        }
        assert forall|t: Seq<char>| #[trigger] now.contains(t) <==> before.contains(t) || t == s@ by {
            if before.contains(t) {
                let k = choose|k: int| 0 <= k < before.len() && before[k] == t;
                assert(now[if k < at {
                    k
                } else {
                    k + 1
                }] == t);
            }
            if t == s@ {
                assert(now[at as int] == t);
            }
            if now.contains(t) {
                let k = choose|k: int| 0 <= k < now.len() && now[k] == t;
                if k != at {
                    assert(before[if k < at {
                        k
                    } else {
                        k - 1
                    }] == t);
                }
            }
        }
    }
}

/// The text with which `str::escape_debug` shows a string.
pub uninterp spec fn debug_escaped(s: Seq<char>) -> Seq<char>;

/// `str::escape_debug`. Its result depends on the text alone. Nothing is claimed
/// of which characters it escapes: the documentation refers to the `Debug`
/// output of strings, which is not written out.
#[verifier::external_body]
fn escape_debug(s: &str) -> (r: String)
    ensures
        r@ == debug_escaped(s@),
{
    s.escape_debug().to_string()
}

/// The text with which a string is shown in quotes, for a reader.
pub uninterp spec fn debug_quoted(s: Seq<char>) -> Seq<char>;

/// `Debug` of `str`. Its result depends on the text alone. Nothing is claimed of
/// which characters it escapes: the documentation does not write it out.
#[verifier::external_body]
pub(crate) fn quote_debug(s: &str) -> (r: String)
    ensures
        r@ == debug_quoted(s@),
{
    format!("{s:?}")
}

/// A text without its control characters.
pub open spec fn without_controls(s: Seq<char>) -> Seq<char>
    decreases s.len(),
{
    if s.len() == 0 {
        s
    } else if control_char(s.last()) {
        without_controls(s.drop_last())
    } else {
        without_controls(s.drop_last()).push(s.last())
    }
}

/// What a terminal is shown of a text: its escaped form, of which no control
/// character is kept.
pub open spec fn printable(s: Seq<char>) -> Seq<char> {
    without_controls(debug_escaped(s))
}

/// Text that is shown never holds a character that a terminal would obey.
pub proof fn without_controls_has_none(s: Seq<char>)
    ensures
        !has_control(without_controls(s)),
    decreases s.len(),
{
    if s.len() > 0 {
        without_controls_has_none(s.drop_last());
    }
}

pub fn to_printable(s: &str) -> (r: String)
    ensures
        r@ == printable(s@),
        !has_control(r@),
{
    let escaped = escape_debug(s);
    let chars = chars_of(escaped.as_str());
    let mut out = String::new();
    let mut i: usize = 0;
    while i < chars.len()
        invariant
            i <= chars.len(),
            out@ == without_controls(chars@.take(i as int)),
        decreases chars.len() - i,
    {
        proof {
            assert(chars@.take(i + 1).drop_last() =~= chars@.take(i as int));
        }
        if !is_control(chars[i]) {
            out.push(chars[i]);
        }
        i += 1;
    }
    proof {
        assert(chars@.take(chars.len() as int) =~= chars@);
        without_controls_has_none(chars@);
    }
    out
}

/// The bytes of two texts, one behind the other, add up.
pub proof fn utf8_len_concat(a: Seq<char>, b: Seq<char>)
    ensures
        utf8_len(a + b) == utf8_len(a) + utf8_len(b),
    decreases a.len(),
{
    if a.len() == 0 {
        assert(a + b =~= b);
    } else {
        utf8_len_concat(a.drop_first(), b);
        assert((a + b).drop_first() =~= a.drop_first() + b);
    }
}

/// A text has at least as many bytes as characters.
pub proof fn utf8_len_covers(s: Seq<char>)
    ensures
        s.len() <= utf8_len(s),
    decreases s.len(),
{
    if s.len() > 0 {
        utf8_len_covers(s.drop_first());
    }
}

/// A text of ASCII characters has one byte for each.
pub proof fn utf8_len_ascii(s: Seq<char>)
    requires
        forall|i: int| 0 <= i < s.len() ==> (#[trigger] s[i]) as u32 <= 0x7f,
    ensures
        utf8_len(s) == s.len(),
    decreases s.len(),
{
    if s.len() > 0 {
        assert(s[0] as u32 <= 0x7f);
        utf8_len_ascii(s.drop_first());
    }
}

/// Trimming keeps a run of the text, which begins and ends with no white space.
pub proof fn trim_start_facts(s: Seq<char>)
    ensures
        trim_start(s).len() <= s.len(),
        trim_start(s) == s.skip(s.len() - trim_start(s).len()),
        trim_start(s).len() > 0 ==> !white_char(trim_start(s)[0]),
        utf8_len(trim_start(s)) <= utf8_len(s),
    decreases s.len(),
{
    if s.len() > 0 && white_char(s[0]) {
        trim_start_facts(s.drop_first());
        let rest = s.drop_first();
        assert(rest.skip(rest.len() - trim_start(rest).len()) =~= s.skip(
            s.len() - trim_start(rest).len(),
        ));
    } else {
        assert(s.skip(0) =~= s);
    }
}

pub proof fn trim_end_facts(s: Seq<char>)
    ensures
        trim_end(s).len() <= s.len(),
        trim_end(s) == s.take(trim_end(s).len() as int),
        trim_end(s).len() > 0 ==> !white_char(trim_end(s).last()),
        utf8_len(trim_end(s)) <= utf8_len(s),
    decreases s.len(),
{
    if s.len() > 0 && white_char(s.last()) {
        trim_end_facts(s.drop_last());
        let rest = s.drop_last();
        assert(rest.take(trim_end(rest).len() as int) =~= s.take(trim_end(rest).len() as int));
        assert(s =~= rest + seq![s.last()]);
        utf8_len_concat(rest, seq![s.last()]);
    } else {
        assert(s.take(s.len() as int) =~= s);
    }
}

/// What a text ends with decides how far it is trimmed.
pub proof fn trim_end_concat(a: Seq<char>, b: Seq<char>)
    ensures
        trim_end(a + b) == if trim_end(b).len() == 0 {
            trim_end(a)
        } else {
            a + trim_end(b)
        },
    decreases b.len(),
{
    if b.len() == 0 {
        assert(a + b =~= a);
    } else if white_char(b.last()) {
        trim_end_concat(a, b.drop_last());
        assert((a + b).drop_last() =~= a + b.drop_last());
        assert((a + b).last() == b.last());
    } else {
        assert((a + b).last() == b.last());
    }
}

/// The order in which the two ends are trimmed does not matter.
pub proof fn trims_commute(s: Seq<char>)
    ensures
        trim_start(trim_end(s)) == trim_both(s),
    decreases s.len(),
{
    if s.len() > 0 {
        let rest = s.drop_first();
        let first = seq![s[0]];
        assert(s =~= first + rest);
        trim_end_concat(first, rest);
        if white_char(s[0]) {
            trims_commute(rest);
            assert(first.drop_last() =~= Seq::<char>::empty());
            reveal_with_fuel(trim_end, 2);
            if trim_end(rest).len() > 0 {
                assert((first + trim_end(rest)).drop_first() =~= trim_end(rest));
            } else {
                assert(trim_end(rest) =~= Seq::<char>::empty());
            }
        } else {
            reveal_with_fuel(trim_end, 2);
            assert(trim_end(first) == first);
        }
    }
}

/// Trimming brings in no control character.
pub proof fn trimming_keeps_uncontrolled(s: Seq<char>)
    requires
        !has_control(s),
    ensures
        !has_control(trim_both(s)),
        utf8_len(trim_both(s)) <= utf8_len(s),
{
    trim_start_facts(s);
    trim_end_facts(trim_start(s));
    let start = trim_start(s);
    assert forall|i: int| 0 <= i < trim_both(s).len() implies !control_char(
        #[trigger] trim_both(s)[i],
    ) by {
        assert(trim_both(s)[i] == start[i]);
        assert(start[i] == s[i + s.len() - start.len()]);
    }
}

/// A text that neither begins nor ends with white space is left as it is.
pub proof fn trim_keeps(s: Seq<char>)
    requires
        s.len() == 0 || (!white_char(s[0]) && !white_char(s.last())),
    ensures
        trim_both(s) == s,
{
}

/// Lines, each with its ending.
pub open spec fn joined(ls: Seq<Seq<char>>) -> Seq<char>
    decreases ls.len(),
{
    if ls.len() == 0 {
        seq![]
    } else {
        joined(ls.drop_last()) + ls.last().push('\n')
    }
}

/// A line that its ending cannot be mistaken in.
pub open spec fn plain_line(line: Seq<char>) -> bool {
    !line.contains('\n') && (line.len() > 0 ==> line.last() != '\r')
}

pub proof fn joined_push(ls: Seq<Seq<char>>, line: Seq<char>)
    ensures
        joined(ls.push(line)) == joined(ls) + line.push('\n'),
{
    assert(ls.push(line).drop_last() =~= ls);
}

proof fn lines_of_concat(ls: Seq<Seq<char>>, more: Seq<char>)
    requires
        forall|i: int| 0 <= i < ls.len() ==> plain_line(#[trigger] ls[i]),
    ensures
        lines(joined(ls) + more) == ls + lines(more),
    decreases ls.len(),
{
    if ls.len() == 0 {
        assert(joined(ls) + more =~= more);
        assert(ls + lines(more) =~= lines(more));
    } else {
        let line = ls.last();
        let rest = line.push('\n') + more;
        assert(plain_line(ls[ls.len() - 1]));
        assert forall|i: int| 0 <= i < ls.drop_last().len() implies plain_line(
            #[trigger] ls.drop_last()[i],
        ) by {
            assert(plain_line(ls[i]));
        }
        lines_of_concat(ls.drop_last(), rest);
        assert(joined(ls) + more =~= joined(ls.drop_last()) + rest);
        assert forall|k: int| 0 <= k < line.len() implies rest[k] != '\n' by {
            assert(rest[k] == line[k]);
            assert(line.contains(line[k]));
        }
        first_index_unique(rest, '\n', line.len() as int);
        assert(rest.take(line.len() as int) =~= line);
        assert(rest.skip(line.len() as int + 1) =~= more);
        assert(ls.drop_last() + lines(rest) =~= ls + lines(more));
    }
}

/// Lines that were written are the lines that are read.
pub proof fn lines_read_back(ls: Seq<Seq<char>>)
    requires
        forall|i: int| 0 <= i < ls.len() ==> plain_line(#[trigger] ls[i]),
    ensures
        lines(joined(ls)) == ls,
{
    lines_of_concat(ls, Seq::<char>::empty());
    assert(joined(ls) + Seq::<char>::empty() =~= joined(ls));
    assert(ls + lines(Seq::<char>::empty()) =~= ls);
}

/// Append a line and its ending.
pub fn put_line(out: &mut String, line: &str)
    ensures
        final(out)@ == old(out)@ + line@.push('\n'),
{
    out.append(line);
    out.push('\n');
    proof {
        assert(out@ =~= old(out)@ + line@.push('\n'));
    }
}

/// `String::from_utf8`: the text where the bytes are UTF-8, and nothing where
/// they are not.
#[verifier::external_body]
pub(crate) fn from_utf8(bytes: Vec<u8>) -> (r: Option<String>)
    ensures
        match r {
            Some(text) => valid_utf8(bytes@) && text@ == decode_utf8(bytes@),
            None => !valid_utf8(bytes@),
        },
{
    String::from_utf8(bytes).ok()
}

} // verus!
