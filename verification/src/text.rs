//! Text as sequences of characters: letter case, trimming, numbers, and padding.

use vstd::prelude::*;
use vstd::string::*;

verus! {

/// The code point of `c` with ASCII capitals read as small letters.
pub open spec fn fold(c: char) -> u32 {
    if 65 <= c as u32 <= 90 {
        (c as u32 + 32) as u32
    } else {
        c as u32
    }
}

/// `s` with ASCII capitals read as small letters.
pub open spec fn folded(s: Seq<char>) -> Seq<u32> {
    s.map_values(|c: char| fold(c))
}

/// Two names are the same when they differ in the case of ASCII letters at most.
pub open spec fn same_name(a: Seq<char>, b: Seq<char>) -> bool {
    folded(a) == folded(b)
}

/// Dictionary order of code points.
pub open spec fn precedes(a: Seq<u32>, b: Seq<u32>) -> bool
    decreases a.len(),
{
    if b.len() == 0 {
        false
    } else if a.len() == 0 {
        true
    } else if a[0] != b[0] {
        a[0] < b[0]
    } else {
        precedes(a.drop_first(), b.drop_first())
    }
}

/// The characters with Unicode's White_Space property.
pub open spec fn is_space(c: char) -> bool {
    let n = c as u32;
    ||| 0x09 <= n <= 0x0d
    ||| n == 0x20
    ||| n == 0x85
    ||| n == 0xa0
    ||| n == 0x1680
    ||| 0x2000 <= n <= 0x200a
    ||| n == 0x2028
    ||| n == 0x2029
    ||| n == 0x202f
    ||| n == 0x205f
    ||| n == 0x3000
}

/// What can be cut off the ends of a text.
#[derive(Clone, Copy)]
pub enum Cut {
    Spaces,
    Quotes,
}

/// Whether `cut` takes `c` off.
pub open spec fn takes(cut: Cut, c: char) -> bool {
    match cut {
        Cut::Spaces => is_space(c),
        Cut::Quotes => c == '"',
    }
}

pub open spec fn trim_front(s: Seq<char>, cut: Cut) -> Seq<char>
    decreases s.len(),
{
    if s.len() > 0 && takes(cut, s.first()) {
        trim_front(s.drop_first(), cut)
    } else {
        s
    }
}

pub open spec fn trim_back(s: Seq<char>, cut: Cut) -> Seq<char>
    decreases s.len(),
{
    if s.len() > 0 && takes(cut, s.last()) {
        trim_back(s.drop_last(), cut)
    } else {
        s
    }
}

/// `s` without the characters that `cut` takes off both ends.
pub open spec fn trim(s: Seq<char>, cut: Cut) -> Seq<char> {
    trim_back(trim_front(s, cut), cut)
}

/// Several texts as characters.
pub open spec fn views(texts: Seq<String>) -> Seq<Seq<char>> {
    texts.map_values(|s: String| s@)
}

pub open spec fn digit(n: nat) -> char {
    (48 + n % 10) as char
}

/// `n` in decimal.
pub open spec fn digits(n: nat) -> Seq<char>
    decreases n,
{
    if n < 10 {
        seq![digit(n)]
    } else {
        digits(n / 10).push(digit(n))
    }
}

pub open spec fn blanks(n: int) -> Seq<char> {
    Seq::new(if n > 0 { n as nat } else { 0 }, |i: int| ' ')
}

/// `s` followed by blanks up to `width` characters.
pub open spec fn pad_end(s: Seq<char>, width: nat) -> Seq<char> {
    s + blanks(width - s.len())
}

/// `s` led by blanks up to `width` characters.
pub open spec fn pad_start(s: Seq<char>, width: nat) -> Seq<char> {
    blanks(width - s.len()) + s
}

/// The characters of `s`.
pub fn chars_of(s: &str) -> (r: Vec<char>)
    ensures
        r@ == s@,
{
    let n: usize = s.unicode_len();
    let mut r: Vec<char> = Vec::new();
    let mut i: usize = 0;
    while i < n
        invariant
            i <= n,
            n == s@.len(),
            r@ == s@.take(i as int),
        decreases n - i,
    {
        r.push(s.get_char(i));
        assert(r@ =~= s@.take(i + 1));
        i += 1;
    }
    assert(s@.take(n as int) =~= s@);
    r
}

fn fold_char(c: char) -> (r: u32)
    ensures
        r == fold(c),
{
    let n: u32 = c as u32;
    if 65 <= n && n <= 90 {
        n + 32
    } else {
        n
    }
}

/// The code points of `s` with ASCII capitals read as small letters.
pub fn fold_text(s: &str) -> (r: Vec<u32>)
    ensures
        r@ == folded(s@),
{
    let chars: Vec<char> = chars_of(s);
    let mut r: Vec<u32> = Vec::new();
    let mut i: usize = 0;
    while i < chars.len()
        invariant
            i <= chars.len(),
            chars@ == s@,
            r@ == folded(s@).take(i as int),
        decreases chars.len() - i,
    {
        r.push(fold_char(chars[i]));
        assert(r@ =~= folded(s@).take(i + 1));
        i += 1;
    }
    assert(folded(s@).take(i as int) =~= folded(s@));
    r
}

/// Compares two names without regard to the case of ASCII letters.
pub fn eq_ignore_ascii_case(a: &str, b: &str) -> (r: bool)
    ensures
        r == same_name(a@, b@),
{
    let x: Vec<u32> = fold_text(a);
    let y: Vec<u32> = fold_text(b);
    if x.len() != y.len() {
        return false;
    }
    let mut i: usize = 0;
    while i < x.len()
        invariant
            i <= x.len(),
            x.len() == y.len(),
            x@ == folded(a@),
            y@ == folded(b@),
            forall|k: int| 0 <= k < i ==> x@[k] == y@[k],
        decreases x.len() - i,
    {
        if x[i] != y[i] {
            assert(x@[i as int] != y@[i as int]);
            return false;
        }
        i += 1;
    }
    assert(x@ =~= y@);
    true
}

/// Whether `a` comes before `b` in dictionary order.
pub fn comes_before(a: &Vec<u32>, b: &Vec<u32>) -> (r: bool)
    ensures
        r == precedes(a@, b@),
{
    let mut i: usize = 0;
    assert(a@.skip(0) =~= a@);
    assert(b@.skip(0) =~= b@);
    while i < a.len() && i < b.len()
        invariant
            i <= a.len(),
            i <= b.len(),
            precedes(a@, b@) == precedes(a@.skip(i as int), b@.skip(i as int)),
        decreases a.len() - i,
    {
        let ghost x = a@.skip(i as int);
        let ghost y = b@.skip(i as int);
        if a[i] != b[i] {
            assert(x[0] != y[0]);
            return a[i] < b[i];
        }
        assert(x.drop_first() =~= a@.skip(i + 1));
        assert(y.drop_first() =~= b@.skip(i + 1));
        i += 1;
    }
    i < b.len()
}

/// Whether `c` has Unicode's White_Space property.
pub fn is_white_space(c: char) -> (r: bool)
    ensures
        r == is_space(c),
{
    let n: u32 = c as u32;
    (0x09 <= n && n <= 0x0d) || n == 0x20 || n == 0x85 || n == 0xa0 || n == 0x1680 || (0x2000 <= n
        && n <= 0x200a) || n == 0x2028 || n == 0x2029 || n == 0x202f || n == 0x205f || n == 0x3000
}

fn takes_char(cut: Cut, c: char) -> (r: bool)
    ensures
        r == takes(cut, c),
{
    match cut {
        Cut::Spaces => is_white_space(c),
        Cut::Quotes => c == '"',
    }
}

/// Narrows the range `from..to` of `s` by what `cut` takes off both ends.
pub fn trim_range(s: &Vec<char>, from: usize, to: usize, cut: Cut) -> (r: (usize, usize))
    requires
        from <= to <= s.len(),
    ensures
        from <= r.0 <= r.1 <= to,
        s@.subrange(r.0 as int, r.1 as int) == trim(s@.subrange(from as int, to as int), cut),
{
    let mut lo: usize = from;
    while lo < to && takes_char(cut, s[lo])
        invariant
            from <= lo <= to <= s.len(),
            trim_front(s@.subrange(lo as int, to as int), cut) == trim_front(
                s@.subrange(from as int, to as int),
                cut,
            ),
        decreases to - lo,
    {
        assert(s@.subrange(lo as int, to as int).drop_first() =~= s@.subrange(lo + 1, to as int));
        lo += 1;
    }
    assert(trim_front(s@.subrange(lo as int, to as int), cut) == s@.subrange(lo as int, to as int));
    let mut hi: usize = to;
    while hi > lo && takes_char(cut, s[hi - 1])
        invariant
            from <= lo <= hi <= to <= s.len(),
            trim_back(s@.subrange(lo as int, hi as int), cut) == trim_back(
                s@.subrange(lo as int, to as int),
                cut,
            ),
        decreases hi - lo,
    {
        assert(s@.subrange(lo as int, hi as int).drop_last() =~= s@.subrange(lo as int, hi - 1));
        hi -= 1;
    }
    (lo, hi)
}

/// Whether nothing but white space is in `s`.
pub fn is_blank(s: &str) -> (r: bool)
    ensures
        r == (trim(s@, Cut::Spaces).len() == 0),
{
    let chars: Vec<char> = chars_of(s);
    let (lo, hi) = trim_range(&chars, 0, chars.len(), Cut::Spaces);
    assert(chars@.subrange(0, chars@.len() as int) =~= s@);
    lo == hi
}

fn digit_text(n: u64) -> (r: &'static str)
    requires
        n < 10,
    ensures
        r@ == seq![digit(n as nat)],
{
    proof {
        reveal_strlit("0");
        reveal_strlit("1");
        reveal_strlit("2");
        reveal_strlit("3");
        reveal_strlit("4");
        reveal_strlit("5");
        reveal_strlit("6");
        reveal_strlit("7");
        reveal_strlit("8");
        reveal_strlit("9");
    }
    let r: &'static str = match n {
        0 => "0",
        1 => "1",
        2 => "2",
        3 => "3",
        4 => "4",
        5 => "5",
        6 => "6",
        7 => "7",
        8 => "8",
        _ => "9",
    };
    assert(r@ =~= seq![digit(n as nat)]);
    r
}

/// Writes `n` in decimal.
pub fn decimal(n: u64) -> (r: String)
    ensures
        r@ == digits(n as nat),
    decreases n,
{
    if n < 10 {
        digit_text(n).to_owned()
    } else {
        let mut r: String = decimal(n / 10);
        let d: u64 = n % 10;
        r.append(digit_text(d));
        assert(digit(d as nat) == digit(n as nat));
        assert(r@ =~= digits(n as nat));
        r
    }
}

fn blank_text(n: usize) -> (r: String)
    ensures
        r@ == blanks(n as int),
{
    proof {
        reveal_strlit(" ");
    }
    let mut r: String = String::new();
    let mut i: usize = 0;
    while i < n
        invariant
            i <= n,
            " "@ == seq![' '],
            r@ == blanks(i as int),
        decreases n - i,
    {
        r.append(" ");
        i += 1;
        assert(r@ =~= blanks(i as int));
    }
    r
}

/// Appends blanks to `s` up to `width` characters.
pub fn padded_end(s: &str, width: usize) -> (r: String)
    ensures
        r@ == pad_end(s@, width as nat),
{
    let n: usize = s.unicode_len();
    let mut r: String = s.to_owned();
    if n < width {
        let b: String = blank_text(width - n);
        r.append(b.as_str());
    }
    assert(r@ =~= pad_end(s@, width as nat));
    r
}

/// Puts blanks in front of `s` up to `width` characters.
pub fn padded_start(s: &str, width: usize) -> (r: String)
    ensures
        r@ == pad_start(s@, width as nat),
{
    let n: usize = s.unicode_len();
    let mut r: String = String::new();
    if n < width {
        r = blank_text(width - n);
    }
    r.append(s);
    assert(r@ =~= pad_start(s@, width as nat));
    r
}

/// Whether `a` and `b` hold the same characters.
pub fn same_text(a: &str, b: &str) -> (r: bool)
    ensures
        r == (a@ == b@),
{
    let x: Vec<char> = chars_of(a);
    let y: Vec<char> = chars_of(b);
    if x.len() != y.len() {
        return false;
    }
    let mut i: usize = 0;
    while i < x.len()
        invariant
            i <= x@.len(),
            x@.len() == y@.len(),
            x@ == a@,
            y@ == b@,
            forall|k: int| 0 <= k < i ==> x@[k] == y@[k],
        decreases x.len() - i,
    {
        if x[i] != y[i] {
            assert(x@[i as int] != y@[i as int]);
            return false;
        }
        i += 1;
    }
    assert(x@ =~= y@);
    true
}

/// The length of the text in a buffer that ends at its first zero, or with the buffer.
pub fn text_len(units: &[u16]) -> (r: usize)
    ensures
        r <= units@.len(),
        forall|k: int| 0 <= k < r ==> units@[k] != 0,
        r < units@.len() ==> units@[r as int] == 0,
{
    let mut i: usize = 0;
    while i < units.len() && units[i] != 0
        invariant
            i <= units@.len(),
            forall|k: int| 0 <= k < i ==> units@[k] != 0,
        decreases units.len() - i,
    {
        i += 1;
    }
    i
}

/// Dictionary order goes one way.
pub proof fn lemma_precedes_transitive(a: Seq<u32>, b: Seq<u32>, c: Seq<u32>)
    requires
        precedes(a, b),
        precedes(b, c),
    ensures
        precedes(a, c),
    decreases a.len(),
{
    if a.len() > 0 && b.len() > 0 && c.len() > 0 && a[0] == b[0] && b[0] == c[0] {
        lemma_precedes_transitive(a.drop_first(), b.drop_first(), c.drop_first());
    }
}

pub proof fn lemma_precedes_irreflexive(a: Seq<u32>)
    ensures
        !precedes(a, a),
    decreases a.len(),
{
    if a.len() > 0 {
        lemma_precedes_irreflexive(a.drop_first());
    }
}

/// Of two different texts one precedes the other.
pub proof fn lemma_precedes_total(a: Seq<u32>, b: Seq<u32>)
    ensures
        a == b || precedes(a, b) || precedes(b, a),
    decreases a.len(),
{
    if a.len() == 0 && b.len() == 0 {
        assert(a =~= b);
    } else if a.len() > 0 && b.len() > 0 && a[0] == b[0] {
        lemma_precedes_total(a.drop_first(), b.drop_first());
        if a.drop_first() == b.drop_first() {
            assert(a =~= seq![a[0]] + a.drop_first());
            assert(b =~= seq![b[0]] + b.drop_first());
        }
    }
}

/// `a` followed by `b`.
pub fn joined(a: &str, b: &str) -> (r: String)
    ensures
        r@ == a@ + b@,
{
    let mut r: String = a.to_owned();
    r.append(b);
    r
}

/// What to tell the user when something went wrong: what it was about, and the reason.
pub fn trouble(what: &str, reason: &str) -> (r: String)
    ensures
        r@ == what@ + ": "@ + reason@,
{
    let mut r: String = joined(what, ": ");
    r.append(reason);
    r
}

proof fn lemma_fold(c: char, d: char)
    ensures
        fold(c) == if 'A' <= c <= 'Z' {
            c as u32 + 32
        } else {
            c as u32 as int
        },
        fold(c) == fold(d) <==> {
            ||| c == d
            ||| 'A' <= c <= 'Z' && d as u32 == c as u32 + 32
            ||| 'A' <= d <= 'Z' && c as u32 == d as u32 + 32
        },
{
}

/// Names are compared letter by letter: two names are the same exactly when they are equally long
/// and differ in no place but by a capital ASCII letter against its small one.
pub proof fn only_the_case_of_letters_is_ignored(a: Seq<char>, b: Seq<char>)
    ensures
        same_name(a, b) <==> a.len() == b.len() && forall|i: int|
            0 <= i < a.len() ==> {
                ||| #[trigger] a[i] == b[i]
                ||| 'A' <= a[i] <= 'Z' && b[i] as u32 == a[i] as u32 + 32
                ||| 'A' <= b[i] <= 'Z' && a[i] as u32 == b[i] as u32 + 32
            },
{
    let x = folded(a);
    let y = folded(b);
    if same_name(a, b) {
        assert(x.len() == y.len());
        assert forall|i: int| 0 <= i < a.len() implies {
            ||| #[trigger] a[i] == b[i]
            ||| 'A' <= a[i] <= 'Z' && b[i] as u32 == a[i] as u32 + 32
            ||| 'A' <= b[i] <= 'Z' && a[i] as u32 == b[i] as u32 + 32
        } by {
            assert(x[i] == fold(a[i]) && y[i] == fold(b[i]));
            lemma_fold(a[i], b[i]);
        }
    }
    if a.len() == b.len() && forall|i: int|
        0 <= i < a.len() ==> {
            ||| #[trigger] a[i] == b[i]
            ||| 'A' <= a[i] <= 'Z' && b[i] as u32 == a[i] as u32 + 32
            ||| 'A' <= b[i] <= 'Z' && a[i] as u32 == b[i] as u32 + 32
        } {
        assert forall|i: int| 0 <= i < x.len() implies x[i] == y[i] by {
            assert(x[i] == fold(a[i]) && y[i] == fold(b[i]));
            lemma_fold(a[i], b[i]);
        }
        assert(x =~= y);
    }
}

/// Small letters are compared in dictionary order: what decides is the first place in which two
/// texts differ, and a text comes before every longer one that starts with it.
pub proof fn the_first_difference_decides(start: Seq<u32>, a: Seq<u32>, b: Seq<u32>)
    requires
        a.len() > 0 && b.len() > 0 ==> a[0] != b[0],
    ensures
        precedes(start + a, start + b) <==> b.len() > 0 && (a.len() == 0 || a[0] < b[0]),
    decreases start.len(),
{
    if start.len() == 0 {
        assert(start + a =~= a);
        assert(start + b =~= b);
    } else {
        the_first_difference_decides(start.drop_first(), a, b);
        assert((start + a).drop_first() =~= start.drop_first() + a);
        assert((start + b).drop_first() =~= start.drop_first() + b);
    }
}

/// A capital letter is put where its small one is, and everything else where it is.
pub proof fn letters_are_put_with_their_small_ones(s: Seq<char>, i: int)
    requires
        0 <= i < s.len(),
    ensures
        folded(s).len() == s.len(),
        'A' <= s[i] <= 'Z' ==> folded(s)[i] == s[i] as u32 + 32,
        !('A' <= s[i] <= 'Z') ==> folded(s)[i] == s[i] as u32,
{
    lemma_fold(s[i], s[i]);
}

/// White space is what Unicode calls so: twenty-five characters.
pub proof fn white_space_is_that_of_unicode(c: char)
    ensures
        is_space(c) <==> seq![
            0x09u32, 0x0au32, 0x0bu32, 0x0cu32, 0x0du32, 0x20u32, 0x85u32, 0xa0u32, 0x1680u32,
            0x2000u32, 0x2001u32, 0x2002u32, 0x2003u32, 0x2004u32, 0x2005u32, 0x2006u32, 0x2007u32,
            0x2008u32, 0x2009u32, 0x200au32, 0x2028u32, 0x2029u32, 0x202fu32, 0x205fu32, 0x3000u32,
        ].contains(c as u32),
{
    let all = seq![
        0x09u32, 0x0au32, 0x0bu32, 0x0cu32, 0x0du32, 0x20u32, 0x85u32, 0xa0u32, 0x1680u32,
        0x2000u32, 0x2001u32, 0x2002u32, 0x2003u32, 0x2004u32, 0x2005u32, 0x2006u32, 0x2007u32,
        0x2008u32, 0x2009u32, 0x200au32, 0x2028u32, 0x2029u32, 0x202fu32, 0x205fu32, 0x3000u32,
    ];
    let n = c as u32;
    if is_space(c) {
        let i: int = if n <= 0x0d {
            n - 0x09
        } else if n == 0x20 {
            5
        } else if n == 0x85 {
            6
        } else if n == 0xa0 {
            7
        } else if n == 0x1680 {
            8
        } else if n <= 0x200a {
            n - 0x2000 + 9
        } else if n == 0x2028 {
            20
        } else if n == 0x2029 {
            21
        } else if n == 0x202f {
            22
        } else if n == 0x205f {
            23
        } else {
            24
        };
        assert(all[i] == n);
    }
}

/// Trimming takes off both ends all that it takes off, and nothing from the middle: between what
/// was taken stands the rest, which neither starts nor ends with any of it.
pub proof fn trimming_takes_the_ends(front: Seq<char>, s: Seq<char>, back: Seq<char>)
    requires
        s.len() > 0,
    ensures
        (forall|i: int| 0 <= i < front.len() ==> is_space(#[trigger] front[i])) && (forall|i: int|
            0 <= i < back.len() ==> is_space(#[trigger] back[i])) && !is_space(s.first())
            && !is_space(s.last()) ==> trim(front + s + back, Cut::Spaces) == s,
        (forall|i: int| 0 <= i < front.len() ==> #[trigger] front[i] == '"') && (forall|i: int|
            0 <= i < back.len() ==> #[trigger] back[i] == '"') && s.first() != '"' && s.last()
            != '"' ==> trim(front + s + back, Cut::Quotes) == s,
{
    if (forall|i: int| 0 <= i < front.len() ==> is_space(#[trigger] front[i])) && (forall|i: int|
        0 <= i < back.len() ==> is_space(#[trigger] back[i])) && !is_space(s.first()) && !is_space(
        s.last(),
    ) {
        lemma_trim_around(front, s, back, Cut::Spaces);
    }
    if (forall|i: int| 0 <= i < front.len() ==> #[trigger] front[i] == '"') && (forall|i: int|
        0 <= i < back.len() ==> #[trigger] back[i] == '"') && s.first() != '"' && s.last() != '"' {
        lemma_trim_around(front, s, back, Cut::Quotes);
    }
}

/// A text of nothing but white space, or of nothing but quotes, is trimmed to nothing.
pub proof fn trimming_can_take_everything(s: Seq<char>)
    ensures
        (forall|i: int| 0 <= i < s.len() ==> is_space(#[trigger] s[i])) ==> trim(
            s,
            Cut::Spaces,
        ).len() == 0,
        (forall|i: int| 0 <= i < s.len() ==> #[trigger] s[i] == '"') ==> trim(
            s,
            Cut::Quotes,
        ).len() == 0,
    decreases s.len(),
{
    if s.len() > 0 {
        let rest = s.drop_first();
        trimming_can_take_everything(rest);
        if forall|i: int| 0 <= i < s.len() ==> is_space(#[trigger] s[i]) {
            assert(is_space(s[0]));
            assert forall|i: int| 0 <= i < rest.len() implies is_space(#[trigger] rest[i]) by {
                assert(rest[i] == s[i + 1]);
            }
        }
        if forall|i: int| 0 <= i < s.len() ==> #[trigger] s[i] == '"' {
            assert(s[0] == '"');
            assert forall|i: int| 0 <= i < rest.len() implies #[trigger] rest[i] == '"' by {
                assert(rest[i] == s[i + 1]);
            }
        }
    }
}

proof fn lemma_trim_around(front: Seq<char>, s: Seq<char>, back: Seq<char>, cut: Cut)
    requires
        s.len() > 0,
        !takes(cut, s.first()),
        !takes(cut, s.last()),
        forall|i: int| 0 <= i < front.len() ==> takes(cut, #[trigger] front[i]),
        forall|i: int| 0 <= i < back.len() ==> takes(cut, #[trigger] back[i]),
    ensures
        trim(front + s + back, cut) == s,
    decreases front.len() + back.len(),
{
    let all = front + s + back;
    if front.len() > 0 {
        let rest = front.drop_first();
        assert(all.first() == front[0]);
        assert(all.drop_first() =~= rest + s + back);
        assert forall|i: int| 0 <= i < rest.len() implies takes(cut, #[trigger] rest[i]) by {
            assert(rest[i] == front[i + 1]);
        }
        lemma_trim_around(rest, s, back, cut);
    } else if back.len() > 0 {
        let rest = back.drop_last();
        assert(all.first() == s.first());
        assert(all.last() == back[back.len() - 1]);
        assert(all.drop_last() =~= front + s + rest);
        assert forall|i: int| 0 <= i < rest.len() implies takes(cut, #[trigger] rest[i]) by {
            assert(rest[i] == back[i]);
        }
        lemma_trim_around(front, s, rest, cut);
        assert((front + s + rest).first() == s.first());
    } else {
        assert(all =~= s);
    }
}

/// Numbers are written in decimal: a single digit is its own sign, and ten times a number plus a
/// digit is the number followed by that digit.
pub proof fn numbers_are_written_in_decimal(n: nat, d: nat)
    requires
        d < 10,
    ensures
        digits(d).len() == 1,
        digits(d)[0] as u32 == '0' as u32 + d,
        n > 0 ==> digits(10 * n + d) == digits(n) + digits(d),
{
    if n > 0 {
        let m = 10 * n + d;
        assert(m / 10 == n && m % 10 == d);
        assert(digits(m) =~= digits(n) + digits(d));
    }
}

/// Padding changes nothing but adds blanks, at the end or in front, up to the width.
pub proof fn padding_fills_up_with_blanks(s: Seq<char>, width: nat, i: int)
    ensures
        pad_end(s, width).len() == if s.len() < width {
            width
        } else {
            s.len()
        },
        pad_start(s, width).len() == pad_end(s, width).len(),
        0 <= i < s.len() ==> pad_end(s, width)[i] == s[i],
        s.len() <= i < width ==> pad_end(s, width)[i] == ' ',
        0 <= i < width - s.len() ==> pad_start(s, width)[i] == ' ',
        0 <= i < s.len() ==> pad_start(s, width)[pad_start(s, width).len() - s.len() + i] == s[i],
{
}

/// Several texts keep their number and order as characters.
pub proof fn views_keep_the_order(texts: Seq<String>)
    ensures
        views(texts).len() == texts.len(),
        forall|i: int| 0 <= i < texts.len() ==> #[trigger] views(texts)[i] == texts[i]@,
{
}

/// Trimming never takes a character that is not white space.
pub proof fn lemma_something_is_left(s: Seq<char>, i: int)
    requires
        0 <= i < s.len(),
        !is_space(s[i]),
    ensures
        trim(s, Cut::Spaces).len() > 0,
    decreases s.len(),
{
    if is_space(s.first()) {
        assert(s.drop_first()[i - 1] == s[i]);
        lemma_something_is_left(s.drop_first(), i - 1);
    } else {
        lemma_back_keeps_first(s);
    }
}

proof fn lemma_back_keeps_first(s: Seq<char>)
    requires
        s.len() > 0,
        !is_space(s.first()),
    ensures
        trim_back(s, Cut::Spaces).len() > 0,
    decreases s.len(),
{
    if is_space(s.last()) {
        lemma_back_keeps_first(s.drop_last());
    }
}

} // verus!
