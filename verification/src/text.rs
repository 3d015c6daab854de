//! Text as sequences of characters: conversion, comparison, search and decimal numbers.

use vstd::prelude::*;
use vstd::string::*;

verus! {

/// What `str::to_lowercase` returns for a text in which no slash stands: the Unicode lowercase
/// mapping of the whole of it.
pub uninterp spec fn lowercase_piece(s: Seq<char>) -> Seq<char>;

/// What `str::to_lowercase` returns for a text: its pieces between slashes are mapped each for
/// itself, and the slashes stay. A piece that is not empty is not mapped to nothing; the definition
/// says so by leaving it as it is in that case.
pub open spec fn lowercase(s: Seq<char>) -> Seq<char>
    decreases s.len(),
{
    if s.contains('/') {
        let i = s.index_of('/');
        lowercase(s.take(i)).push('/') + lowercase(s.skip(i + 1))
    } else if s.len() == 0 || lowercase_piece(s).len() == 0 {
        s
    } else {
        lowercase_piece(s)
    }
}

/// `str::to_lowercase` of the standard library. Each character becomes one or more characters, and
/// which ones depends on the word in which it stands, as for a sigma at the end of a word, but on
/// nothing beyond: a slash belongs to no word, has no case and stays. So the result is that of the
/// pieces between slashes, with the slashes between them, and it is empty only for the empty text.
/// Nothing more is claimed of what a piece becomes than that it depends on the piece alone; that is
/// called `lowercase_piece`.
pub assume_specification[ str::to_lowercase ](s: &str) -> (r: String)
    ensures
        r@ == lowercase(s@),
        !s@.contains('/') ==> r@ == lowercase_piece(s@),
;

/// A slash parts what is mapped to lowercase: what stands before it and what stands behind it are
/// mapped each for itself.
pub proof fn lowercase_is_parted_by_slashes(s: Seq<char>, j: int)
    requires
        0 <= j < s.len(),
        s[j] == '/',
    ensures
        lowercase(s) == lowercase(s.take(j)).push('/') + lowercase(s.skip(j + 1)),
    decreases s.len(),
{
    assert(s.contains('/'));
    let i = s.index_of('/');
    assert(0 <= i < s.len() && s[i] == '/');
    if i < j {
        let rest = s.skip(i + 1);
        lowercase_is_parted_by_slashes(rest, j - i - 1);
        lowercase_is_parted_by_slashes(s.take(j), i);
        let middle = rest.take(j - i - 1);
        assert(s.take(j).take(i) =~= s.take(i));
        assert(s.take(j).skip(i + 1) =~= middle);
        assert(rest.skip(j - i) =~= s.skip(j + 1));
        assert(lowercase(s.take(i)).push('/') + (lowercase(middle).push('/') + lowercase(
            s.skip(j + 1),
        )) =~= (lowercase(s.take(i)).push('/') + lowercase(middle)).push('/') + lowercase(
            s.skip(j + 1),
        ));
    } else if j < i {
        let rest = s.skip(j + 1);
        lowercase_is_parted_by_slashes(s.take(i), j);
        lowercase_is_parted_by_slashes(rest, i - j - 1);
        let middle = rest.take(i - j - 1);
        assert(s.take(i).take(j) =~= s.take(j));
        assert(s.take(i).skip(j + 1) =~= middle);
        assert(rest.skip(i - j) =~= s.skip(i + 1));
        assert((lowercase(s.take(j)).push('/') + lowercase(middle)).push('/') + lowercase(
            s.skip(i + 1),
        ) =~= lowercase(s.take(j)).push('/') + (lowercase(middle).push('/') + lowercase(
            s.skip(i + 1),
        )));
    }
}

/// Only the empty text is mapped to the empty text.
pub proof fn lowercase_keeps_texts(s: Seq<char>)
    ensures
        lowercase(s).len() == 0 <==> s.len() == 0,
{
    if s.contains('/') {
        let i = s.index_of('/');
        assert(0 <= i < s.len());
    }
}

/// `needle` stands somewhere in `hay`, in one piece.
pub open spec fn occurs_in(needle: Seq<char>, hay: Seq<char>) -> bool {
    exists|i: int|
        0 <= i <= hay.len() - needle.len() && #[trigger] hay.subrange(i, i + needle.len())
            == needle
}

/// The decimal digit of a number below ten.
pub open spec fn digit(n: nat) -> char {
    "0123456789"@[n as int]
}

/// A number written in decimal, without leading zeros.
pub open spec fn decimal(n: nat) -> Seq<char>
    decreases n,
{
    if n < 10 {
        seq![digit(n)]
    } else {
        decimal(n / 10).push(digit(n % 10))
    }
}

/// The characters of a text, in order.
pub fn chars_of(s: &str) -> (r: Vec<char>)
    ensures
        r@ == s@,
{
    let mut out: Vec<char> = Vec::new();
    for c in it: s.chars()
        invariant
            out@ == it.seq().take(it.index() as int),
            it.seq() == s@,
    {
        out.push(c);
    }
    out
}

/// Whether `a`, from position `at` on, goes on with `b`.
pub fn matches_at(a: &Vec<char>, at: usize, b: &Vec<char>) -> (r: bool)
    ensures
        r == (at + b@.len() <= a@.len() && a@.subrange(at as int, at + b@.len()) == b@),
{
    if at > a.len() || b.len() > a.len() - at {
        return false;
    }
    let len: usize = a.len();
    let mut k: usize = 0;
    while k < b.len()
        invariant
            k <= b@.len(),
            len == a@.len(),
            at + b@.len() <= len,
            forall|j: int| 0 <= j < k ==> a@[at + j] == b@[j],
        decreases b@.len() - k,
    {
        if a[at + k] != b[k] {
            assert(a@.subrange(at as int, at + b@.len())[k as int] != b@[k as int]);
            return false;
        }
        k += 1;
    }
    assert(a@.subrange(at as int, at + b@.len()) =~= b@);
    true
}

/// Whether two texts hold the same characters.
pub fn same_text(a: &str, b: &str) -> (r: bool)
    ensures
        r == (a@ == b@),
{
    let x: Vec<char> = chars_of(a);
    let y: Vec<char> = chars_of(b);
    proof {
        if x@.len() == y@.len() {
            assert(x@.subrange(0, x@.len() as int) =~= x@);
        }
    }
    x.len() == y.len() && matches_at(&x, 0, &y)
}

/// Whether `s` begins with `prefix`.
pub fn begins_with(s: &str, prefix: &str) -> (r: bool)
    ensures
        r == prefix@.is_prefix_of(s@),
{
    let x: Vec<char> = chars_of(s);
    let y: Vec<char> = chars_of(prefix);
    matches_at(&x, 0, &y)
}

/// Whether `needle` stands somewhere in `hay`.
pub fn contains_text(hay: &str, needle: &str) -> (r: bool)
    ensures
        r == occurs_in(needle@, hay@),
{
    let x: Vec<char> = chars_of(hay);
    let y: Vec<char> = chars_of(needle);
    if y.len() > x.len() {
        return false;
    }
    let last: usize = x.len() - y.len();
    let mut i: usize = 0;
    while i <= last
        invariant
            x@ == hay@,
            y@ == needle@,
            last == x@.len() - y@.len(),
            i <= last + 1,
            forall|j: int| 0 <= j < i ==> #[trigger] hay@.subrange(j, j + needle@.len()) != needle@,
        decreases last + 1 - i,
    {
        if matches_at(&x, i, &y) {
            return true;
        }
        if i == last {
            return false;
        }
        i += 1;
    }
    false
}

/// The one-character text of a digit.
fn digit_text(n: u64) -> (r: &'static str)
    requires
        n < 10,
    ensures
        r@ == seq![digit(n as nat)],
{
    proof {
        reveal_strlit("0123456789");
        reveal_strlit("0");
        reveal_strlit("1");
        reveal_strlit("2");
        reveal_strlit("3");
        reveal_strlit("4");
        reveal_strlit("5");
        reveal_strlit("6");
        reveal_strlit("7");
        reveal_strlit("8");
        reveal_strlit("9");
    }
    match n {
        0 => "0",
        1 => "1",
        2 => "2",
        3 => "3",
        4 => "4",
        5 => "5",
        6 => "6",
        7 => "7",
        8 => "8",
        _ => "9",
    }
}

/// A number written in decimal.
pub fn decimal_text(n: u64) -> (r: String)
    ensures
        r@ == decimal(n as nat),
    decreases n,
{
    if n < 10 {
        digit_text(n).to_owned()
    } else {
        let mut out: String = decimal_text(n / 10);
        out.append(digit_text(n % 10));
        assert(out@ =~= decimal(n as nat));
        out
    }
}

/// A text stands in another one exactly if that one is made of something, the text, and something.
pub proof fn occurrences_have_surroundings(needle: Seq<char>, hay: Seq<char>)
    ensures
        occurs_in(needle, hay) <==> exists|before: Seq<char>, behind: Seq<char>|
            hay == #[trigger] (before + needle + behind),
{
    if occurs_in(needle, hay) {
        let i = choose|i: int|
            0 <= i <= hay.len() - needle.len() && #[trigger] hay.subrange(i, i + needle.len())
                == needle;
        let before = hay.take(i);
        let behind = hay.skip(i + needle.len());
        assert(hay =~= before + needle + behind);
    }
    if exists|before: Seq<char>, behind: Seq<char>| hay == #[trigger] (before + needle + behind) {
        let (before, behind) = choose|before: Seq<char>, behind: Seq<char>|
            hay == #[trigger] (before + needle + behind);
        let i = before.len() as int;
        assert(hay.subrange(i, i + needle.len()) =~= needle);
    }
}

/// The number that decimal digits stand for.
pub open spec fn number_of(digits: Seq<char>) -> int
    decreases digits.len(),
{
    if digits.len() == 0 {
        0
    } else {
        10 * number_of(digits.drop_last()) + (digits.last() as int - '0' as int)
    }
}

/// A number written in decimal is read back as that number, consists of digits, and does not begin
/// with a zero unless it is zero.
pub proof fn decimals_are_read_back(n: nat)
    ensures
        number_of(decimal(n)) == n,
        decimal(n).len() > 0,
        decimal(n)[0] != '0' || n == 0,
        forall|i: int| 0 <= i < decimal(n).len() ==> '0' <= #[trigger] decimal(n)[i] <= '9',
    decreases n,
{
    reveal_strlit("0123456789");
    let d = digit(n % 10);
    assert('0' <= d <= '9' && d as int - '0' as int == n % 10);
    if n < 10 {
        assert(decimal(n).drop_last() =~= Seq::<char>::empty());
        assert(number_of(Seq::<char>::empty()) == 0);
    } else {
        decimals_are_read_back(n / 10);
        assert(decimal(n).drop_last() =~= decimal(n / 10));
    }
}

} // verus!
