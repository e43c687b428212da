//! Text helpers.

use vstd::prelude::*;
use vstd::string::*;

verus! {

/// The characters with the Unicode property White_Space.
pub open spec fn white_space(c: char) -> bool {
    ||| '\u{9}' <= c <= '\u{d}'
    ||| c == ' '
    ||| c == '\u{85}'
    ||| c == '\u{a0}'
    ||| c == '\u{1680}'
    ||| '\u{2000}' <= c <= '\u{200a}'
    ||| c == '\u{2028}'
    ||| c == '\u{2029}'
    ||| c == '\u{202f}'
    ||| c == '\u{205f}'
    ||| c == '\u{3000}'
}

/// `s` without the characters at its start that `drop` picks.
pub open spec fn strip_start(s: Seq<char>, drop: spec_fn(char) -> bool) -> Seq<char>
    decreases s.len(),
{
    if s.len() > 0 && drop(s.first()) {
        strip_start(s.drop_first(), drop)
    } else {
        s
    }
}

/// `s` without the characters at its end that `drop` picks.
pub open spec fn strip_end(s: Seq<char>, drop: spec_fn(char) -> bool) -> Seq<char>
    decreases s.len(),
{
    if s.len() > 0 && drop(s.last()) {
        strip_end(s.drop_last(), drop)
    } else {
        s
    }
}

/// `s` without the characters at either end that `drop` picks.
pub open spec fn strip(s: Seq<char>, drop: spec_fn(char) -> bool) -> Seq<char> {
    strip_end(strip_start(s, drop), drop)
}

/// `s` without white space at either end.
pub open spec fn trimmed(s: Seq<char>) -> Seq<char> {
    strip(s, |c: char| white_space(c))
}

/// `str::trim`: the text without leading and trailing characters that have the Unicode
/// property White_Space.
pub assume_specification<'a>[ str::trim ](s: &'a str) -> (r: &'a str)
    ensures
        r@ == trimmed(s@),
;

/// `String::push`: the character is appended to the end.
pub assume_specification[ String::push ](s: &mut String, c: char)
    ensures
        final(s)@ == old(s)@.push(c),
;

/// The characters of a text.
pub fn characters(s: &str) -> (r: Vec<char>)
    ensures
        r@ == s@,
{
    let mut r: Vec<char> = Vec::new();
    for c in it: s.chars()
        invariant
            it.seq() == s@,
            r@ == s@.subrange(0, it.index() as int),
    {
        r.push(c);
    }
    r
}

/// Whether two texts are the same.
pub fn same(a: &str, b: &str) -> (r: bool)
    ensures
        r == (a@ == b@),
{
    let x = characters(a);
    let y = characters(b);
    if x.len() != y.len() {
        return false;
    }
    let r = stands_at(&x, &y, 0);
    assert(x@.subrange(0, x@.len() as int) == x@);
    r
}

/// Whether `needle` stands somewhere in `hay`.
pub open spec fn occurs(hay: Seq<char>, needle: Seq<char>) -> bool {
    exists|i: int| #[trigger] occurs_at(hay, needle, i)
}

/// Whether `needle` stands in `hay` at position `i`.
pub open spec fn occurs_at(hay: Seq<char>, needle: Seq<char>, i: int) -> bool {
    &&& 0 <= i <= hay.len() - needle.len()
    &&& hay.subrange(i, i + needle.len()) == needle
}

/// Whether `needle` stands in `hay` at position `i`.
pub fn stands_at(hay: &Vec<char>, needle: &Vec<char>, i: usize) -> (r: bool)
    ensures
        r == occurs_at(hay@, needle@, i as int),
{
    if i > hay.len() || hay.len() - i < needle.len() {
        return false;
    }
    let mut k: usize = 0;
    while k < needle.len()
        invariant
            k <= needle@.len(),
            i + needle@.len() <= hay@.len() <= usize::MAX,
            hay@.subrange(i as int, i + k) == needle@.subrange(0, k as int),
        decreases needle@.len() - k,
    {
        proof {
            let a = hay@.subrange(i as int, i + needle@.len());
            assert(a[k as int] == hay@[i + k]);
        }
        if hay[i + k] != needle[k] {
            return false;
        }
        proof {
            assert(hay@.subrange(i as int, i + k + 1) == hay@.subrange(i as int, i + k).push(
                hay@[i + k],
            ));
            assert(needle@.subrange(0, k + 1) == needle@.subrange(0, k as int).push(
                needle@[k as int],
            ));
        }
        k = k + 1;
    }
    assert(needle@.subrange(0, needle@.len() as int) == needle@);
    true
}

/// Whether `needle` stands somewhere in `hay`.
pub fn contains(hay: &str, needle: &str) -> (r: bool)
    ensures
        r == occurs(hay@, needle@),
{
    let h = characters(hay);
    let n = characters(needle);
    if h.len() < n.len() {
        return false;
    }
    let last: usize = h.len() - n.len();
    let mut i: usize = 0;
    while i < last
        invariant
            h@ == hay@,
            n@ == needle@,
            i <= last,
            last == h@.len() - n@.len(),
            forall|j: int| 0 <= j < i ==> !#[trigger] occurs_at(h@, n@, j),
        decreases last - i,
    {
        if stands_at(&h, &n, i) {
            return true;
        }
        i = i + 1;
    }
    stands_at(&h, &n, last)
}

/// The characters of `chars` from `from` up to `to`, as text.
pub fn slice_text(chars: &Vec<char>, from: usize, to: usize) -> (r: String)
    requires
        from <= to <= chars@.len(),
    ensures
        r@ == chars@.subrange(from as int, to as int),
{
    let mut r = String::new();
    let mut i: usize = from;
    while i < to
        invariant
            from <= i <= to <= chars@.len(),
            r@ == chars@.subrange(from as int, i as int),
        decreases to - i,
    {
        r.push(chars[i]);
        i = i + 1;
    }
    r
}

/// The decimal digit `d`.
pub open spec fn digit(d: nat) -> char {
    (48 + d) as char
}

/// `n` in decimal.
pub open spec fn decimal(n: nat) -> Seq<char>
    decreases n,
{
    if n < 10 {
        seq![digit(n)]
    } else {
        decimal(n / 10).push(digit(n % 10))
    }
}

/// `n` in decimal.
pub fn to_decimal(n: u128) -> (r: String)
    ensures
        r@ == decimal(n as nat),
    decreases n,
{
    let mut r = if n < 10 {
        String::new()
    } else {
        to_decimal(n / 10)
    };
    let d: u8 = (n % 10) as u8;
    r.push((48 + d) as char);
    r
}

/// The texts that a list of strings holds.
pub open spec fn texts(list: Seq<String>) -> Seq<Seq<char>> {
    Seq::new(list.len(), |i: int| list[i]@)
}

/// `parts` one after the other, with `separator` between each two.
pub open spec fn joined(parts: Seq<Seq<char>>, separator: Seq<char>) -> Seq<char>
    decreases parts.len(),
{
    if parts.len() == 0 {
        Seq::empty()
    } else if parts.len() == 1 {
        parts[0]
    } else {
        joined(parts.drop_last(), separator) + separator + parts.last()
    }
}

/// `parts` one after the other, with `separator` between each two.
pub fn join(parts: &Vec<String>, separator: &str) -> (r: String)
    ensures
        r@ == joined(texts(parts@), separator@),
{
    let mut r = String::new();
    let mut i: usize = 0;
    let ghost all = texts(parts@);
    while i < parts.len()
        invariant
            i <= parts@.len(),
            all == texts(parts@),
            r@ == joined(all.take(i as int), separator@),
        decreases parts@.len() - i,
    {
        if i > 0 {
            r.append(separator);
        }
        r.append(parts[i].as_str());
        proof {
            assert(all.take(i + 1).drop_last() == all.take(i as int));
            assert(all.take(i + 1).last() == parts@[i as int]@);
            if i == 0 {
                assert(all.take(0) == Seq::<Seq<char>>::empty());
                assert(r@ == all.take(1)[0]);
            }
        }
        i = i + 1;
    }
    assert(all.take(all.len() as int) == all);
    r
}

proof fn lemma_strip_start(s: Seq<char>, drop: spec_fn(char) -> bool)
    ensures
        strip_start(s, drop).len() > 0 ==> !drop(strip_start(s, drop).first()),
        strip_start(s, drop).len() > 0 ==> strip_start(s, drop).last() == s.last(),
        s.len() > 0 && !drop(s.last()) ==> strip_start(s, drop).len() > 0,
    decreases s.len(),
{
    if s.len() > 0 && drop(s.first()) {
        lemma_strip_start(s.drop_first(), drop);
    }
}

proof fn lemma_strip_end(s: Seq<char>, drop: spec_fn(char) -> bool)
    ensures
        strip_end(s, drop).len() > 0 ==> !drop(strip_end(s, drop).last()),
        strip_end(s, drop).len() > 0 ==> strip_end(s, drop).first() == s.first(),
    decreases s.len(),
{
    if s.len() > 0 && drop(s.last()) {
        lemma_strip_end(s.drop_last(), drop);
    }
}

/// What is left after stripping has none of the dropped characters at its ends.
pub proof fn lemma_strip_clean(s: Seq<char>, drop: spec_fn(char) -> bool)
    ensures
        strip(s, drop).len() > 0 ==> {
            &&& !drop(strip(s, drop).first())
            &&& !drop(strip(s, drop).last())
        },
{
    lemma_strip_start(s, drop);
    lemma_strip_end(strip_start(s, drop), drop);
}

/// Stripping changes nothing where there is nothing to drop.
pub proof fn lemma_strip_nothing(s: Seq<char>, drop: spec_fn(char) -> bool)
    requires
        s.len() > 0 ==> !drop(s.first()) && !drop(s.last()),
    ensures
        strip(s, drop) == s,
{
}

/// A trimmed text has no white space at its ends, and trimming it again changes nothing.
pub proof fn lemma_trimmed(s: Seq<char>)
    ensures
        trimmed(s).len() > 0 ==> {
            &&& !white_space(trimmed(s).first())
            &&& !white_space(trimmed(s).last())
        },
        trimmed(trimmed(s)) == trimmed(s),
{
    let drop = |c: char| white_space(c);
    lemma_strip_clean(s, drop);
    lemma_strip_nothing(trimmed(s), drop);
}

/// Parts that are not empty, joined, begin as the first of them and end as the last.
pub proof fn lemma_joined_ends(parts: Seq<Seq<char>>, separator: Seq<char>)
    requires
        parts.len() > 0,
        forall|i: int| 0 <= i < parts.len() ==> (#[trigger] parts[i]).len() > 0,
    ensures
        joined(parts, separator).len() > 0,
        joined(parts, separator).first() == parts[0].first(),
        joined(parts, separator).last() == parts.last().last(),
    decreases parts.len(),
{
    if parts.len() > 1 {
        lemma_joined_ends(parts.drop_last(), separator);
        assert(parts[parts.len() - 1].len() > 0);
    } else {
        assert(parts[0].len() > 0);
    }
}

/// Two lists joined as one: the one joined, the separator, and the other joined.
pub proof fn lemma_joined_lists(a: Seq<Seq<char>>, b: Seq<Seq<char>>, separator: Seq<char>)
    ensures
        joined(a + b, separator) == if a.len() == 0 {
            joined(b, separator)
        } else if b.len() == 0 {
            joined(a, separator)
        } else {
            joined(a, separator) + separator + joined(b, separator)
        },
    decreases b.len(),
{
    let whole = a + b;
    if a.len() == 0 {
        assert(whole =~= b);
    } else if b.len() == 0 {
        assert(whole =~= a);
    } else {
        let rest = b.drop_last();
        assert(whole.drop_last() =~= a + rest);
        lemma_joined_lists(a, rest, separator);
        if b.len() > 1 {
            assert(joined(whole, separator) =~= joined(a, separator) + separator + joined(
                b,
                separator,
            ));
        }
    }
}

/// Whether `s` ends with `tail`.
pub open spec fn ends_with(s: Seq<char>, tail: Seq<char>) -> bool {
    s.len() >= tail.len() && s.skip(s.len() - tail.len()) == tail
}

/// Whether `drop` picks every character of `s`.
pub open spec fn all_dropped(s: Seq<char>, drop: spec_fn(char) -> bool) -> bool {
    forall|i: int| 0 <= i < s.len() ==> drop(#[trigger] s[i])
}

proof fn lemma_strip_start_all(a: Seq<char>, m: Seq<char>, drop: spec_fn(char) -> bool)
    requires
        all_dropped(a, drop),
        m.len() > 0 ==> !drop(m.first()),
    ensures
        strip_start(a + m, drop) == m,
    decreases a.len(),
{
    let s = a + m;
    if a.len() > 0 {
        assert(drop(a[0]));
        let rest = a.drop_first();
        assert forall|i: int| 0 <= i < rest.len() implies drop(#[trigger] rest[i]) by {
            assert(drop(a[i + 1]));
        }
        assert(s.drop_first() =~= rest + m);
        lemma_strip_start_all(rest, m, drop);
    } else {
        assert(s =~= m);
    }
}

proof fn lemma_strip_end_all(m: Seq<char>, b: Seq<char>, drop: spec_fn(char) -> bool)
    requires
        all_dropped(b, drop),
        m.len() > 0 ==> !drop(m.last()),
    ensures
        strip_end(m + b, drop) == m,
    decreases b.len(),
{
    let s = m + b;
    if b.len() > 0 {
        assert(drop(b[b.len() - 1]));
        let rest = b.drop_last();
        assert forall|i: int| 0 <= i < rest.len() implies drop(#[trigger] rest[i]) by {
            assert(drop(b[i]));
        }
        assert(s.drop_last() =~= m + rest);
        lemma_strip_end_all(m, rest, drop);
    } else {
        assert(s =~= m);
    }
}

/// Stripping takes off whatever can be dropped around a text that neither begins nor ends
/// with a dropped character, and nothing else.
pub proof fn lemma_strip_around(
    a: Seq<char>,
    m: Seq<char>,
    b: Seq<char>,
    drop: spec_fn(char) -> bool,
)
    requires
        all_dropped(a, drop),
        all_dropped(b, drop),
        m.len() > 0 ==> !drop(m.first()) && !drop(m.last()),
    ensures
        strip(a + m + b, drop) == m,
{
    if m.len() > 0 {
        assert(a + m + b =~= a + (m + b));
        lemma_strip_start_all(a, m + b, drop);
        lemma_strip_end_all(m, b, drop);
    } else {
        let none = Seq::<char>::empty();
        assert(a + m + b =~= (a + b) + none);
        assert forall|i: int| 0 <= i < (a + b).len() implies drop(#[trigger] (a + b)[i]) by {
            if i < a.len() {
                assert(drop(a[i]));
            } else {
                assert(drop(b[i - a.len()]));
            }
        }
        lemma_strip_start_all(a + b, none, drop);
        assert(strip_end(none, drop) =~= m);
    }
}

proof fn lemma_strip_start_parts(s: Seq<char>, drop: spec_fn(char) -> bool) -> (a: Seq<char>)
    ensures
        all_dropped(a, drop),
        s == a + strip_start(s, drop),
    decreases s.len(),
{
    if s.len() > 0 && drop(s.first()) {
        let rest = lemma_strip_start_parts(s.drop_first(), drop);
        let a = seq![s.first()] + rest;
        assert forall|i: int| 0 <= i < a.len() implies drop(#[trigger] a[i]) by {
            if i > 0 {
                assert(drop(rest[i - 1]));
            }
        }
        let m = strip_start(s, drop);
        assert(s =~= seq![s.first()] + s.drop_first());
        assert(seq![s.first()] + (rest + m) =~= a + m);
        a
    } else {
        let a = Seq::<char>::empty();
        assert(s =~= a + s);
        a
    }
}

proof fn lemma_strip_end_parts(s: Seq<char>, drop: spec_fn(char) -> bool) -> (b: Seq<char>)
    ensures
        all_dropped(b, drop),
        s == strip_end(s, drop) + b,
    decreases s.len(),
{
    if s.len() > 0 && drop(s.last()) {
        let rest = lemma_strip_end_parts(s.drop_last(), drop);
        let b = rest + seq![s.last()];
        assert forall|i: int| 0 <= i < b.len() implies drop(#[trigger] b[i]) by {
            if i < rest.len() {
                assert(drop(rest[i]));
            }
        }
        let m = strip_end(s, drop);
        assert(s =~= s.drop_last() + seq![s.last()]);
        assert((m + rest) + seq![s.last()] =~= m + b);
        b
    } else {
        let b = Seq::<char>::empty();
        assert(s =~= s + b);
        b
    }
}

/// Stripping takes off nothing but dropped characters, at the ends.
pub proof fn lemma_strip_parts(s: Seq<char>, drop: spec_fn(char) -> bool) -> (r: (
    Seq<char>,
    Seq<char>,
))
    ensures
        all_dropped(r.0, drop),
        all_dropped(r.1, drop),
        s == r.0 + strip(s, drop) + r.1,
{
    let a = lemma_strip_start_parts(s, drop);
    let m = strip_start(s, drop);
    let b = lemma_strip_end_parts(m, drop);
    assert(a + (strip_end(m, drop) + b) =~= a + strip_end(m, drop) + b);
    (a, b)
}

/// Whether `s` holds nothing but white space.
pub open spec fn blank(s: Seq<char>) -> bool {
    forall|i: int| 0 <= i < s.len() ==> white_space(#[trigger] s[i])
}

/// Whether `s` is `t` between white space.
pub open spec fn framed(s: Seq<char>, a: Seq<char>, t: Seq<char>, b: Seq<char>) -> bool {
    &&& blank(a)
    &&& blank(b)
    &&& s == a + t + b
}

/// Whether `t` is what is left of `s` when nothing but the white space at its ends is taken
/// off.
pub open spec fn trims_to(s: Seq<char>, t: Seq<char>) -> bool {
    &&& exists|a: Seq<char>, b: Seq<char>| #[trigger] framed(s, a, t, b)
    &&& t.len() > 0 ==> !white_space(t.first()) && !white_space(t.last())
}

/// Trimming takes off the white space at the ends of a text and nothing else.
pub proof fn lemma_trims_to(s: Seq<char>, t: Seq<char>)
    ensures
        trims_to(s, t) <==> t == trimmed(s),
        trimmed(s).len() == 0 <==> blank(s),
{
    let drop = |c: char| white_space(c);
    let (a, b) = lemma_strip_parts(s, drop);
    assert forall|i: int| 0 <= i < a.len() implies white_space(#[trigger] a[i]) by {
        assert(drop(a[i]));
    }
    assert forall|i: int| 0 <= i < b.len() implies white_space(#[trigger] b[i]) by {
        assert(drop(b[i]));
    }
    lemma_trimmed(s);
    assert(framed(s, a, trimmed(s), b));
    if trims_to(s, t) {
        let (c, d) = choose|c: Seq<char>, d: Seq<char>| #[trigger] framed(s, c, t, d);
        assert(all_dropped(c, drop));
        assert(all_dropped(d, drop));
        lemma_strip_around(c, t, d, drop);
    }
    if trimmed(s).len() == 0 {
        assert forall|i: int| 0 <= i < s.len() implies white_space(#[trigger] s[i]) by {
            if i < a.len() {
                assert(s[i] == a[i]);
            } else {
                assert(s[i] == b[i - a.len()]);
            }
        }
    } else {
        let m = trimmed(s);
        assert(s[a.len() as int] == m[0]);
    }
}

/// A text that neither begins nor ends with white space is trimmed to itself, whatever is
/// inside it.
pub proof fn lemma_trim_keeps(t: Seq<char>)
    requires
        t.len() > 0,
        !white_space(t.first()),
        !white_space(t.last()),
    ensures
        trims_to(t, t),
{
    let none = Seq::<char>::empty();
    assert(none + t + none =~= t);
    assert(framed(t, none, t, none));
}

/// A text occurs in another exactly if that is something, the text, and something more.
pub proof fn lemma_occurs(hay: Seq<char>, needle: Seq<char>)
    ensures
        occurs(hay, needle) <==> exists|a: Seq<char>, b: Seq<char>|
            hay == #[trigger] (a + needle + b),
{
    if occurs(hay, needle) {
        let i = choose|i: int| occurs_at(hay, needle, i);
        let a = hay.take(i);
        let b = hay.skip(i + needle.len());
        let middle = hay.subrange(i, i + needle.len());
        assert(hay =~= a + middle + b);
        assert(hay == a + needle + b);
    }
    if exists|a: Seq<char>, b: Seq<char>| hay == #[trigger] (a + needle + b) {
        let (a, b) = choose|a: Seq<char>, b: Seq<char>| hay == #[trigger] (a + needle + b);
        let i = a.len() as int;
        assert(hay.subrange(i, i + needle.len()) =~= needle);
        assert(occurs_at(hay, needle, i));
    }
}

/// The number that decimal digits make.
pub open spec fn number_of(digits: Seq<char>) -> int
    decreases digits.len(),
{
    if digits.len() == 0 {
        0
    } else {
        10 * number_of(digits.drop_last()) + (digits.last() as int - '0' as int)
    }
}

/// A number in decimal is made of digits, does not begin with a zero unless it is zero, and
/// reads as the number.
pub proof fn lemma_decimal(n: nat)
    ensures
        decimal(n).len() > 0,
        forall|i: int| 0 <= i < decimal(n).len() ==> '0' <= #[trigger] decimal(n)[i] <= '9',
        n > 0 ==> decimal(n)[0] != '0',
        n == 0 ==> decimal(n) == seq!['0'],
        number_of(decimal(n)) == n,
    decreases n,
{
    let s = decimal(n);
    if n < 10 {
        assert(s.drop_last() =~= Seq::empty());
        assert(number_of(s.drop_last()) == 0);
    } else {
        lemma_decimal(n / 10);
        assert(s.drop_last() =~= decimal(n / 10));
    }
}

/// Joining puts the parts one after the other with the separator between each two: one part
/// is itself, and one more part comes behind the separator.
pub proof fn lemma_joined(parts: Seq<Seq<char>>, part: Seq<char>, separator: Seq<char>)
    ensures
        joined(Seq::empty(), separator) == Seq::<char>::empty(),
        joined(seq![part], separator) == part,
        parts.len() > 0 ==> joined(parts.push(part), separator) == joined(parts, separator)
            + separator + part,
{
    assert(parts.push(part).drop_last() =~= parts);
}

} // verus!
