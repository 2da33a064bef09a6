//! What holds of words, numbers, joined texts and their order.

use vstd::prelude::*;
use vstd::utf8::encode_utf8;

use crate::order::{ascending, before, below_at, texts};
use crate::text::{
    blank, decimal, is_white, joined, signed_decimal, word_end, word_end_after, words, words_from,
};

verus! {

/// What strings hold is what each of them holds, in turn.
pub proof fn texts_hold_each(s: Seq<String>)
    ensures
        texts(s).len() == s.len(),
        forall|i: int| 0 <= i < s.len() ==> #[trigger] texts(s)[i] == s[i]@,
{
}

/// White space is the tab, the line ends, the space and the further characters
/// that Unicode counts to it, and nothing else.
pub proof fn white_space_is(c: char)
    ensures
        is_white(c) <==> seq![
            '\t',
            '\n',
            '\u{b}',
            '\u{c}',
            '\r',
            ' ',
            '\u{85}',
            '\u{a0}',
            '\u{1680}',
            '\u{2000}',
            '\u{2001}',
            '\u{2002}',
            '\u{2003}',
            '\u{2004}',
            '\u{2005}',
            '\u{2006}',
            '\u{2007}',
            '\u{2008}',
            '\u{2009}',
            '\u{200a}',
            '\u{2028}',
            '\u{2029}',
            '\u{202f}',
            '\u{205f}',
            '\u{3000}',
        ].contains(c),
{
    let all = seq![
        '\t',
        '\n',
        '\u{b}',
        '\u{c}',
        '\r',
        ' ',
        '\u{85}',
        '\u{a0}',
        '\u{1680}',
        '\u{2000}',
        '\u{2001}',
        '\u{2002}',
        '\u{2003}',
        '\u{2004}',
        '\u{2005}',
        '\u{2006}',
        '\u{2007}',
        '\u{2008}',
        '\u{2009}',
        '\u{200a}',
        '\u{2028}',
        '\u{2029}',
        '\u{202f}',
        '\u{205f}',
        '\u{3000}',
    ];
    if is_white(c) {
        let u = c as int;
        let i = if u <= 0xd {
            u - 9
        } else if u == 0x20 {
            5
        } else if u == 0x85 {
            6
        } else if u == 0xa0 {
            7
        } else if u == 0x1680 {
            8
        } else if u <= 0x200a {
            u - 0x2000 + 9
        } else if u == 0x2028 {
            20
        } else if u == 0x2029 {
            21
        } else if u == 0x202f {
            22
        } else if u == 0x205f {
            23
        } else {
            24
        };
        assert(all[i] == c);
    }
    if all.contains(c) {
        let i = choose|i: int| 0 <= i < all.len() && all[i] == c;
        assert(0 <= i < 25);
        assert(is_white(all[i]));
    }
}

/// A text is blank exactly where none of its characters is anything but white
/// space.
pub proof fn blank_is_all_white(s: Seq<char>)
    ensures
        blank(s) <==> s.filter(|c: char| !is_white(c)).len() == 0,
    decreases s.len(),
{
    let pred = |c: char| !is_white(c);
    reveal(Seq::filter);
    if s.len() > 0 {
        let init = s.drop_last();
        blank_is_all_white(init);
        assert(blank(s) <==> blank(init) && is_white(s.last())) by {
            if blank(init) && is_white(s.last()) {
                assert forall|i: int| 0 <= i < s.len() implies is_white(#[trigger] s[i]) by {
                    if i < init.len() {
                        assert(s[i] == init[i]);
                    }
                }
            }
            if blank(s) {
                assert(is_white(s[s.len() - 1]));
                assert forall|i: int| 0 <= i < init.len() implies is_white(#[trigger] init[i]) by {
                    assert(s[i] == init[i]);
                }
            }
        }
    }
}

proof fn word_end_in_front(a: Seq<char>, w: char, b: Seq<char>, i: int)
    requires
        is_white(w),
        0 <= i <= a.len(),
    ensures
        word_end(a.push(w) + b, i) == word_end(a, i),
    decreases a.len() - i,
{
    let s = a.push(w) + b;
    if i < a.len() {
        assert(s[i] == a[i]);
        word_end_in_front(a, w, b, i + 1);
    } else {
        assert(s[i] == w);
    }
}

proof fn word_end_behind(a: Seq<char>, w: char, b: Seq<char>, i: int)
    requires
        0 <= i <= b.len(),
    ensures
        word_end(a.push(w) + b, a.len() + 1 + i) == a.len() + 1 + word_end(b, i),
    decreases b.len() - i,
{
    let s = a.push(w) + b;
    if i < b.len() {
        assert(s[a.len() + 1 + i] == b[i]);
        word_end_behind(a, w, b, i + 1);
    }
}

proof fn words_behind(a: Seq<char>, w: char, b: Seq<char>, i: int)
    requires
        0 <= i <= b.len(),
    ensures
        words_from(a.push(w) + b, a.len() + 1 + i) == words_from(b, i),
    decreases b.len() - i,
{
    let s = a.push(w) + b;
    let k = a.len() + 1;
    if i < b.len() {
        assert(s[k + i] == b[i]);
        if is_white(b[i]) {
            words_behind(a, w, b, i + 1);
        } else {
            let e = word_end(b, i);
            word_end_after(b, i);
            word_end_behind(a, w, b, i);
            words_behind(a, w, b, e);
            assert(s.subrange(k + i, k + e) =~= b.subrange(i, e));
        }
    }
}

proof fn words_in_front(a: Seq<char>, w: char, b: Seq<char>, i: int)
    requires
        is_white(w),
        0 <= i <= a.len(),
    ensures
        words_from(a.push(w) + b, i) == words_from(a, i) + words(b),
    decreases a.len() - i,
{
    let s = a.push(w) + b;
    if i == a.len() {
        assert(s[i] == w);
        words_behind(a, w, b, 0);
        assert(words_from(a, i) + words(b) =~= words(b));
    } else {
        assert(s[i] == a[i]);
        if is_white(a[i]) {
            words_in_front(a, w, b, i + 1);
        } else {
            let e = word_end(a, i);
            word_end_after(a, i);
            word_end_in_front(a, w, b, i);
            words_in_front(a, w, b, e);
            assert(s.subrange(i, e) =~= a.subrange(i, e));
            assert(words_from(s, i) =~= words_from(a, i) + words(b));
        }
    }
}

/// White space parts words and does nothing else: the words of two texts with
/// white space between them are those of the one and those of the other.
pub proof fn white_space_parts_words(a: Seq<char>, w: char, b: Seq<char>)
    requires
        is_white(w),
    ensures
        words(a.push(w) + b) == words(a) + words(b),
{
    words_in_front(a, w, b, 0);
}

proof fn word_end_at_end(s: Seq<char>, i: int)
    requires
        0 <= i <= s.len(),
        forall|j: int| 0 <= j < s.len() ==> !is_white(#[trigger] s[j]),
    ensures
        word_end(s, i) == s.len(),
    decreases s.len() - i,
{
    if i < s.len() {
        word_end_at_end(s, i + 1);
    }
}

/// A text without white space is one word, unless it is empty.
pub proof fn unparted_text_is_a_word(s: Seq<char>)
    requires
        forall|i: int| 0 <= i < s.len() ==> !is_white(#[trigger] s[i]),
    ensures
        words(s) == if s.len() == 0 {
            Seq::<Seq<char>>::empty()
        } else {
            seq![s]
        },
{
    if s.len() > 0 {
        assert(!is_white(s[0]));
        word_end_at_end(s, 0);
        assert(s.subrange(0, s.len() as int) =~= s);
        assert(words_from(s, s.len() as int) =~= Seq::<Seq<char>>::empty());
        assert(words(s) =~= seq![s]);
    }
}

/// A number below ten is written as its digit; any other as its tens, followed
/// by its last digit.
pub proof fn decimal_in_digits(m: nat, d: nat)
    requires
        d < 10,
    ensures
        decimal(d).len() == 1,
        decimal(d)[0] as int == '0' as int + d,
        m > 0 ==> decimal(10 * m + d) == decimal(m) + decimal(d),
{
    assert(d == 0 || d == 1 || d == 2 || d == 3 || d == 4 || d == 5 || d == 6 || d == 7 || d == 8 || d == 9);
    if m > 0 {
        let n = 10 * m + d;
        assert(n / 10 == m && n % 10 == d);
        assert(decimal(n) =~= decimal(m) + decimal(d));
    }
}

/// A number that is not negative is written without a sign; its negative with a
/// `-` in front.
pub proof fn sign_in_front(n: nat)
    ensures
        signed_decimal(n as int) == decimal(n),
        n > 0 ==> signed_decimal(-n) == seq!['-'] + decimal(n),
{
    reveal_strlit("-");
    assert("-"@ =~= seq!['-']);
}

/// Joining puts the separator between the texts and nowhere else.
pub proof fn joined_in_parts(a: Seq<Seq<char>>, b: Seq<Seq<char>>, sep: Seq<char>)
    requires
        a.len() > 0,
        b.len() > 0,
    ensures
        joined(a + b, sep) == joined(a, sep) + sep + joined(b, sep),
    decreases b.len(),
{
    let all = a + b;
    assert(all.last() == b.last());
    if b.len() == 1 {
        assert(all.drop_last() =~= a);
    } else {
        let init = b.drop_last();
        assert(all.drop_last() =~= a + init);
        joined_in_parts(a, init, sep);
        assert(joined(all, sep) =~= joined(a, sep) + sep + joined(b, sep));
    }
}

/// One text is joined to itself; none to nothing.
pub proof fn joined_alone(x: Seq<char>, sep: Seq<char>)
    ensures
        joined(seq![x], sep) == x,
        joined(Seq::empty(), sep) == Seq::<char>::empty(),
{
}

/// Of names in ascending order each stands before all that follow it.
pub proof fn ascending_names_rise(names: Seq<Seq<char>>, i: int, j: int)
    requires
        ascending(names),
        0 <= i < j < names.len(),
    ensures
        before(names[i], names[j]),
{
}

/// Of two texts that differ, the one with the smaller byte at the first
/// difference comes first; and a text comes before those that go on from it.
pub proof fn first_difference_decides(
    a: Seq<char>,
    b: Seq<char>,
    common: Seq<u8>,
    rest_a: Seq<u8>,
    rest_b: Seq<u8>,
)
    requires
        encode_utf8(a) == common + rest_a,
        encode_utf8(b) == common + rest_b,
        rest_b.len() > 0,
        rest_a.len() == 0 || rest_a[0] < rest_b[0],
    ensures
        before(a, b),
        !before(b, a),
{
    let (x, y) = (encode_utf8(a), encode_utf8(b));
    let n = common.len() as int;
    assert forall|j: int| 0 <= j < n implies x[j] == y[j] by {
        assert(x[j] == common[j] && y[j] == common[j]);
    }
    if rest_a.len() > 0 {
        assert(x[n] == rest_a[0]);
    }
    assert(y[n] == rest_b[0]);
    assert(below_at(x, y, n));
    crate::order::before_asymmetric(a, b);
}

} // verus!
