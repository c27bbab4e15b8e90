//! Text helpers: characters of a string, whitespace-separated words,
//! decimal numbers, and building strings character by character.
use vstd::prelude::*;
use vstd::string::StrSliceExecFns;

verus! {

/// Appends `c` to `s` by std's `String::push`. Trusted: the contract
/// claims that the characters of `s` afterwards are its old characters
/// followed by `c`, as the documentation of `String::push` says.
#[verifier::external_body]
pub fn push_char(s: &mut String, c: char)
    ensures
        final(s)@ == old(s)@.push(c),
{
    s.push(c);
}

/// The characters of `s`.
pub fn str_chars(s: &str) -> (v: Vec<char>)
    ensures
        v@ == s@,
{
    let n = s.unicode_len();
    let mut v: Vec<char> = Vec::new();
    let mut i: usize = 0;
    while i < n
        invariant
            0 <= i <= n,
            n == s@.len(),
            v@ == s@.take(i as int),
        decreases n - i,
    {
        let c = s.get_char(i);
        v.push(c);
        proof {
            assert(s@.take(i + 1) =~= s@.take(i as int).push(c));
        }
        i += 1;
    }
    assert(s@.take(n as int) =~= s@);
    v
}

/// Unicode white space (the `White_Space` property, as `char::is_whitespace`).
pub open spec fn is_ws(c: char) -> bool {
    let x = c as u32;
    ||| (9 <= x <= 13)
    ||| x == 32
    ||| x == 0x85
    ||| x == 0xa0
    ||| x == 0x1680
    ||| (0x2000 <= x <= 0x200a)
    ||| x == 0x2028
    ||| x == 0x2029
    ||| x == 0x202f
    ||| x == 0x205f
    ||| x == 0x3000
}

pub fn is_whitespace(c: char) -> (b: bool)
    ensures
        b == is_ws(c),
{
    let x = c as u32;
    (9 <= x && x <= 13) || x == 32 || x == 0x85 || x == 0xa0 || x == 0x1680 || (0x2000 <= x && x
        <= 0x200a) || x == 0x2028 || x == 0x2029 || x == 0x202f || x == 0x205f || x == 0x3000
}

/// The end of the word starting at `i`: the first white space at or after `i`, or the length.
pub open spec fn word_end(s: Seq<char>, i: int) -> int
    decreases s.len() - i,
{
    if i < 0 || i >= s.len() || is_ws(s[i]) {
        i
    } else {
        word_end(s, i + 1)
    }
}

pub proof fn lemma_word_end(s: Seq<char>, i: int)
    requires
        0 <= i <= s.len(),
    ensures
        i <= word_end(s, i) <= s.len(),
        word_end(s, i) < s.len() ==> is_ws(s[word_end(s, i)]),
        forall|j: int| i <= j < word_end(s, i) ==> !is_ws(#[trigger] s[j]),
    decreases s.len() - i,
{
    if i < s.len() && !is_ws(s[i]) {
        lemma_word_end(s, i + 1);
    }
}

/// The whitespace-separated words of `s` from index `i` on.
pub open spec fn words_from(s: Seq<char>, i: int) -> Seq<Seq<char>>
    decreases s.len() - i,
{
    if i < 0 || i >= s.len() {
        seq![]
    } else if is_ws(s[i]) {
        words_from(s, i + 1)
    } else {
        let e = word_end(s, i);
        proof {
            lemma_word_end(s, i + 1);
        }
        seq![s.subrange(i, e)] + words_from(s, e)
    }
}

/// The whitespace-separated words of `s` (as `str::split_whitespace`).
pub open spec fn words(s: Seq<char>) -> Seq<Seq<char>> {
    words_from(s, 0)
}

/// The words of `s`, as (start, end) index pairs.
pub fn split_words(s: &Vec<char>) -> (w: Vec<(usize, usize)>)
    ensures
        w@.len() == words(s@).len(),
        forall|k: int|
            0 <= k < w@.len() ==> {
                let (a, b) = #[trigger] w@[k];
                &&& a <= b <= s@.len()
                &&& words(s@)[k] == s@.subrange(a as int, b as int)
            },
{
    let mut w: Vec<(usize, usize)> = Vec::new();
    let ghost mut done: Seq<Seq<char>> = seq![];
    let mut i: usize = 0;
    while i < s.len()
        invariant
            0 <= i <= s@.len(),
            words(s@) == done + words_from(s@, i as int),
            w@.len() == done.len(),
            forall|k: int|
                0 <= k < w@.len() ==> {
                    let (a, b) = #[trigger] w@[k];
                    &&& a <= b <= s@.len()
                    &&& done[k] == s@.subrange(a as int, b as int)
                },
        decreases s@.len() - i,
    {
        if is_whitespace(s[i]) {
            i += 1;
        } else {
            let start = i;
            proof {
                lemma_word_end(s@, i as int);
            }
            while i < s.len() && !is_whitespace(s[i])
                invariant
                    start <= i <= s@.len(),
                    word_end(s@, start as int) == word_end(s@, i as int),
                decreases s@.len() - i,
            {
                i += 1;
            }
            let ghost word = s@.subrange(start as int, i as int);
            proof {
                assert(words_from(s@, start as int) == seq![word] + words_from(s@, i as int));
                assert(done + (seq![word] + words_from(s@, i as int)) =~= done.push(word) + words_from(s@, i as int));
                done = done.push(word);
            }
            w.push((start, i));
        }
    }
    assert(done + words_from(s@, i as int) =~= done);
    w
}

/// The value of the decimal digits `d`.
pub open spec fn dec_value(d: Seq<char>) -> nat
    decreases d.len(),
{
    if d.len() == 0 {
        0
    } else {
        dec_value(d.drop_last()) * 10 + ((d.last() as u32) - 48) as nat
    }
}

pub open spec fn is_digit(c: char) -> bool {
    '0' <= c <= '9'
}

pub open spec fn all_digits(d: Seq<char>) -> bool {
    forall|i: int| 0 <= i < d.len() ==> is_digit(#[trigger] d[i])
}

/// `t` read as a `u16` (as `u16::from_str`): an optional `+`, then at
/// least one decimal digit, with a value that fits.
pub open spec fn parse_u16(t: Seq<char>) -> Option<u16> {
    let d = if t.len() > 0 && t[0] == '+' {
        t.drop_first()
    } else {
        t
    };
    if d.len() == 0 || !all_digits(d) || dec_value(d) > 65535 {
        None
    } else {
        Some(dec_value(d) as u16)
    }
}

proof fn lemma_dec_value_grows(d: Seq<char>, i: int)
    requires
        0 <= i <= d.len(),
        all_digits(d),
    ensures
        dec_value(d.take(i)) <= dec_value(d),
    decreases d.len() - i,
{
    if i < d.len() {
        lemma_dec_value_grows(d, i + 1);
        assert(d.take(i + 1).drop_last() =~= d.take(i));
    } else {
        assert(d.take(i) =~= d);
    }
}

/// Reads the characters `s[a..b]` as a `u16`, as `parse_u16` says.
pub fn parse_u16_at(s: &Vec<char>, a: usize, b: usize) -> (r: Option<u16>)
    requires
        a <= b <= s@.len(),
    ensures
        r == parse_u16(s@.subrange(a as int, b as int)),
{
    let ghost t = s@.subrange(a as int, b as int);
    let mut i = a;
    if i < b && s[i] == '+' {
        i += 1;
    }
    let ghost d = s@.subrange(i as int, b as int);
    assert(d =~= if t.len() > 0 && t[0] == '+' { t.drop_first() } else { t });
    if i == b {
        return None;
    }
    let start = i;
    let mut v: u32 = 0;
    while i < b
        invariant
            a <= start <= i <= b <= s@.len(),
            d == s@.subrange(start as int, b as int),
            t == s@.subrange(a as int, b as int),
            d == (if t.len() > 0 && t[0] == '+' { t.drop_first() } else { t }),
            start < b,
            all_digits(d.take(i - start)),
            v == dec_value(d.take(i - start)),
            v <= 65535,
        decreases b - i,
    {
        let c = s[i];
        if !('0' <= c && c <= '9') {
            proof {
                assert(d[i - start] == c);
            }
            return None;
        }
        proof {
            assert(d.take(i - start + 1).drop_last() =~= d.take(i - start));
            assert(d.take(i - start + 1).last() == c);
        }
        v = v * 10 + (c as u32 - 48);
        i += 1;
        if v > 65535 {
            proof {
                if all_digits(d) {
                    lemma_dec_value_grows(d, i - start);
                }
            }
            return None;
        }
    }
    assert(d.take(i - start) =~= d);
    Some(v as u16)
}

/// The decimal digits of `n`, without leading zeros (as `to_string`).
pub open spec fn dec_str(n: nat) -> Seq<char>
    decreases n,
{
    if n < 10 {
        seq![((n + 48) as u32) as char]
    } else {
        dec_str(n / 10).push((((n % 10) + 48) as u32) as char)
    }
}

/// Appends the decimal digits of `n` to `s`.
pub fn push_decimal(s: &mut String, n: u64)
    ensures
        final(s)@ == old(s)@ + dec_str(n as nat),
    decreases n,
{
    if n >= 10 {
        push_decimal(s, n / 10);
    }
    let d = (n % 10) as u32 + 48;
    let c = char_of(d);
    push_char(s, c);
    assert(s@ =~= old(s)@ + dec_str(n as nat));
}

/// The character with code `d`, an ASCII code.
pub fn char_of(d: u32) -> (c: char)
    requires
        d < 128,
    ensures
        c == (d as char),
{
    (d as u8) as char
}


/// No character of `w` is white space.
pub open spec fn no_ws(w: Seq<char>) -> bool {
    forall|i: int| 0 <= i < w.len() ==> !is_ws(#[trigger] w[i])
}

proof fn lemma_word_end_shift(a: Seq<char>, b: Seq<char>, j: int)
    requires
        0 <= j <= b.len(),
    ensures
        word_end(a + b, a.len() + j) == a.len() + word_end(b, j),
    decreases b.len() - j,
{
    if j < b.len() {
        assert((a + b)[a.len() + j] == b[j]);
        lemma_word_end_shift(a, b, j + 1);
    }
}

proof fn lemma_words_shift(a: Seq<char>, b: Seq<char>, j: int)
    requires
        0 <= j <= b.len(),
    ensures
        words_from(a + b, a.len() + j) == words_from(b, j),
    decreases b.len() - j,
{
    if j < b.len() {
        assert((a + b)[a.len() + j] == b[j]);
        if is_ws(b[j]) {
            lemma_words_shift(a, b, j + 1);
        } else {
            lemma_word_end_shift(a, b, j);
            lemma_word_end(b, j);
            let e = word_end(b, j);
            lemma_words_shift(a, b, e);
            assert((a + b).subrange(a.len() + j, a.len() + e) =~= b.subrange(j, e));
        }
    }
}

proof fn lemma_word_end_whole(w: Seq<char>, rest: Seq<char>, i: int)
    requires
        0 <= i <= w.len(),
        no_ws(w),
        rest.len() == 0 || is_ws(rest[0]),
    ensures
        word_end(w + rest, i) == w.len(),
    decreases w.len() - i,
{
    if i < w.len() {
        assert((w + rest)[i] == w[i]);
        lemma_word_end_whole(w, rest, i + 1);
    } else if rest.len() > 0 {
        assert((w + rest)[i] == rest[0]);
    }
}

/// The words of a word followed by a space and more text: that word, then
/// the words of the rest.
pub proof fn lemma_words_cons(w: Seq<char>, rest: Seq<char>)
    requires
        w.len() > 0,
        no_ws(w),
    ensures
        words(w + seq![' '] + rest) == seq![w] + words(rest),
{
    let s = w + seq![' '] + rest;
    let t = seq![' '] + rest;
    assert(s =~= w + t);
    lemma_word_end_whole(w, t, 0);
    assert(s.subrange(0, w.len() as int) =~= w);
    assert(s[w.len() as int] == ' ');
    assert(is_ws(' '));
    lemma_words_shift(w + seq![' '], rest, 0);
    assert(words_from(s, w.len() + 1int) == words_from(rest, 0));
    assert(words_from(s, w.len() as int) == words_from(s, w.len() + 1int));
    assert(!is_ws(s[0]));
    assert(words_from(s, 0) == seq![s.subrange(0, w.len() as int)] + words_from(s, w.len() as int));
}

/// The words of a single word are that word.
pub proof fn lemma_words_single(w: Seq<char>)
    requires
        w.len() > 0,
        no_ws(w),
    ensures
        words(w) == seq![w],
{
    lemma_word_end_whole(w, seq![], 0);
    assert(w + seq![] =~= w);
    assert(w.subrange(0, w.len() as int) =~= w);
    assert(!is_ws(w[0]));
    assert(words_from(w, w.len() as int) == Seq::<Seq<char>>::empty());
    assert(words_from(w, 0) == seq![w.subrange(0, w.len() as int)] + words_from(w, w.len() as int));
    assert(seq![w] + Seq::<Seq<char>>::empty() =~= seq![w]);
}

/// The decimal digits of `n` read back as `n`.
pub proof fn lemma_dec_round_trip(n: nat)
    ensures
        dec_str(n).len() > 0,
        all_digits(dec_str(n)),
        no_ws(dec_str(n)),
        dec_str(n)[0] != '+',
        dec_value(dec_str(n)) == n,
    decreases n,
{
    let c = (((n % 10) + 48) as u32) as char;
    assert((c as u32) == (n % 10) + 48);
    if n >= 10 {
        lemma_dec_round_trip(n / 10);
        let d = dec_str(n / 10);
        assert(dec_str(n).drop_last() =~= d);
        assert(dec_str(n)[0] == d[0]);
        assert(dec_str(n).last() == c);
        assert(dec_value(dec_str(n)) == dec_value(d) * 10 + ((c as u32) - 48) as nat);
        assert(n == (n / 10) * 10 + n % 10);
    } else {
        assert(dec_str(n).drop_last() =~= Seq::<char>::empty());
        assert(dec_str(n).last() == c);
        assert(dec_value(dec_str(n)) == dec_value(Seq::<char>::empty()) * 10 + ((c as u32) - 48) as nat);
    }
}

/// The pieces of `s` between single spaces, as `str::split(' ')` gives
/// them (empty pieces included; the empty text is one empty piece).
pub open spec fn split_at_spaces(s: Seq<char>) -> Seq<Seq<char>>
    decreases s.len(),
{
    if s.len() == 0 {
        seq![seq![]]
    } else {
        let init = split_at_spaces(s.drop_last());
        if s.last() == ' ' {
            init.push(seq![])
        } else {
            init.update(init.len() - 1, init.last().push(s.last()))
        }
    }
}

/// `w` holds no space.
pub open spec fn no_space(w: Seq<char>) -> bool {
    forall|i: int| 0 <= i < w.len() ==> #[trigger] w[i] != ' '
}

proof fn lemma_split_nonempty(s: Seq<char>)
    ensures
        split_at_spaces(s).len() >= 1,
    decreases s.len(),
{
    if s.len() > 0 {
        lemma_split_nonempty(s.drop_last());
    }
}

/// Appending text without a space extends the last piece.
pub proof fn lemma_split_extend(x: Seq<char>, w: Seq<char>)
    requires
        no_space(w),
    ensures
        split_at_spaces(x + w) == split_at_spaces(x).update(
            split_at_spaces(x).len() - 1,
            split_at_spaces(x).last() + w,
        ),
        split_at_spaces(x + w).len() == split_at_spaces(x).len(),
    decreases w.len(),
{
    lemma_split_nonempty(x);
    let sx = split_at_spaces(x);
    if w.len() == 0 {
        assert(x + w =~= x);
        assert(sx.last() + w =~= sx.last());
        assert(sx.update(sx.len() - 1, sx.last()) =~= sx);
    } else {
        let w0 = w.drop_last();
        assert(no_space(w0)) by {
            assert forall|i: int| 0 <= i < w0.len() implies #[trigger] w0[i] != ' ' by {
                assert(w0[i] == w[i]);
            }
        }
        lemma_split_extend(x, w0);
        assert((x + w).drop_last() =~= x + w0);
        assert((x + w).last() == w.last());
        assert(w[w.len() - 1] != ' ');
        let s0 = split_at_spaces(x + w0);
        assert(s0.last() == sx.last() + w0);
        assert(s0.last().push(w.last()) =~= sx.last() + w);
        assert(s0.update(s0.len() - 1, s0.last().push(w.last())) =~= sx.update(sx.len() - 1, sx.last() + w));
    }
}

/// Text, a space, then a piece without a space: the pieces of the text,
/// then that piece.
pub proof fn lemma_split_space_then(x: Seq<char>, w: Seq<char>)
    requires
        no_space(w),
    ensures
        split_at_spaces(x + seq![' '] + w) == split_at_spaces(x).push(w),
{
    let y = x + seq![' '];
    assert(y.drop_last() =~= x);
    assert(split_at_spaces(y) == split_at_spaces(x).push(seq![]));
    lemma_split_extend(y, w);
    let sy = split_at_spaces(y);
    assert(seq![] + w =~= w);
    assert(sy.update(sy.len() - 1, sy.last() + w) =~= split_at_spaces(x).push(w));
}

/// A piece without a space on its own is one piece.
pub proof fn lemma_split_single(w: Seq<char>)
    requires
        no_space(w),
    ensures
        split_at_spaces(w) == seq![w],
{
    lemma_split_extend(seq![], w);
    assert(seq![] + w =~= w);
    assert(split_at_spaces(seq![]).update(0, seq![] + w) =~= seq![w]);
}

} // verus!
