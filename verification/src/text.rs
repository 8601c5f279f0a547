//! Byte-level text handling shared by the header and the ASCII body:
//! whitespace, words, lines and decimal integers.

use vstd::prelude::*;

verus! {

/// An ASCII byte that `char::is_whitespace` holds of: tab, newline, vertical tab,
/// form feed, carriage return and space.
pub open spec fn is_space(b: u8) -> bool {
    b == 32 || (9 <= b && b <= 13)
}

/// The three-byte UTF-8 encodings of the whitespace characters U+1680,
/// U+2000 to U+200A, U+2028, U+2029, U+202F, U+205F and U+3000.
pub open spec fn is_ws3(a: u8, b: u8, c: u8) -> bool {
    ||| (a == 0xE1 && b == 0x9A && c == 0x80)
    ||| (a == 0xE2 && b == 0x80 && ((0x80 <= c && c <= 0x8A) || c == 0xA8 || c == 0xA9 || c == 0xAF))
    ||| (a == 0xE2 && b == 0x81 && c == 0x9F)
    ||| (a == 0xE3 && b == 0x80 && c == 0x80)
}

/// The number of bytes of the whitespace character (Unicode's White_Space, as
/// `str::split_whitespace` and `str::trim` use it) that starts at `i` in UTF-8
/// text, or 0 when none does: the ASCII ones, U+0085 and U+00A0 in two bytes, and
/// the others in three.
pub open spec fn ws_at(s: Seq<u8>, i: int) -> nat {
    if i < 0 || i >= s.len() {
        0
    } else if is_space(s[i]) {
        1
    } else if i + 1 < s.len() && s[i] == 0xC2 && (s[i + 1] == 0x85 || s[i + 1] == 0xA0) {
        2
    } else if i + 2 < s.len() && is_ws3(s[i], s[i + 1], s[i + 2]) {
        3
    } else {
        0
    }
}

/// No whitespace character starts anywhere in `w`.
pub open spec fn no_ws(w: Seq<u8>) -> bool {
    forall|i: int| 0 <= i < w.len() ==> ws_at(w, i) == 0
}

/// The length of the whitespace character at `i`, or 0.
pub fn ws_len(s: &[u8], i: usize) -> (r: usize)
    requires
        i <= s@.len(),
    ensures
        r == ws_at(s@, i as int),
{
    if i >= s.len() {
        return 0;
    }
    let b = s[i];
    if space(b) {
        1
    } else if i + 1 < s.len() && b == 0xC2 && (s[i + 1] == 0x85 || s[i + 1] == 0xA0) {
        2
    } else if s.len() - i > 2 {
        let c1 = s[i + 1];
        let c2 = s[i + 2];
        if (b == 0xE1 && c1 == 0x9A && c2 == 0x80) || (b == 0xE2 && c1 == 0x80 && ((0x80 <= c2
            && c2 <= 0x8A) || c2 == 0xA8 || c2 == 0xA9 || c2 == 0xAF)) || (b == 0xE2 && c1 == 0x81
            && c2 == 0x9F) || (b == 0xE3 && c1 == 0x80 && c2 == 0x80) {
            3
        } else {
            0
        }
    } else {
        0
    }
}

/// Whitespace characters lie within the text.
pub proof fn lemma_ws_at_bound(s: Seq<u8>, i: int)
    ensures
        ws_at(s, i) > 0 ==> 0 <= i && i + ws_at(s, i) <= s.len(),
        ws_at(s, i) <= 3,
{
}

/// Dropping the first `k` bytes moves every whitespace character `k` bytes back.
pub proof fn lemma_ws_at_skip(s: Seq<u8>, k: int, i: int)
    requires
        0 <= k <= s.len(),
        0 <= i,
    ensures
        ws_at(s.skip(k), i) == ws_at(s, i + k),
{
    let t = s.skip(k);
    if i < t.len() {
        assert(t[i] == s[i + k]);
        if i + 1 < t.len() {
            assert(t[i + 1] == s[i + k + 1]);
        }
        if i + 2 < t.len() {
            assert(t[i + 2] == s[i + k + 2]);
        }
    }
}

/// Text that an ASCII byte follows: the whitespace characters that start in the
/// text are those of the text alone.
pub proof fn lemma_ws_at_left(a: Seq<u8>, c: Seq<u8>, i: int)
    requires
        0 <= i < a.len(),
        c.len() == 0 || c[0] < 0x80,
    ensures
        ws_at(a + c, i) == ws_at(a, i),
{
    let s = a + c;
    assert(s[i] == a[i]);
    if i + 1 < a.len() {
        assert(s[i + 1] == a[i + 1]);
    } else if i + 1 < s.len() {
        assert(s[i + 1] == c[0]);
    }
    if i + 2 < a.len() {
        assert(s[i + 2] == a[i + 2]);
    } else if i + 2 == a.len() && i + 2 < s.len() {
        assert(s[i + 2] == c[0]);
    }
}

/// The whitespace characters of what follows text are those of the follower alone.
pub proof fn lemma_ws_at_right(a: Seq<u8>, c: Seq<u8>, j: int)
    requires
        0 <= j,
    ensures
        ws_at(a + c, a.len() + j) == ws_at(c, j),
{
    assert((a + c).skip(a.len() as int) =~= c);
    lemma_ws_at_skip(a + c, a.len() as int, j);
}

/// A whitespace character in a prefix of text is one of the text.
pub proof fn lemma_ws_at_prefix(s: Seq<u8>, n: int, m: int)
    requires
        0 <= m < n <= s.len(),
        ws_at(s.take(n), m) > 0,
    ensures
        ws_at(s, m) == ws_at(s.take(n), m),
{
    let t = s.take(n);
    assert(t[m] == s[m]);
    if m + 1 < t.len() {
        assert(t[m + 1] == s[m + 1]);
    }
    if m + 2 < t.len() {
        assert(t[m + 2] == s[m + 2]);
    }
}

/// A byte for which `u8::is_ascii_whitespace` holds.
pub open spec fn is_ascii_ws(b: u8) -> bool {
    b == 32 || b == 9 || b == 10 || b == 12 || b == 13
}

pub fn space(b: u8) -> (r: bool)
    ensures
        r == is_space(b),
{
    b == 32 || (9 <= b && b <= 13)
}

pub fn ascii_ws(b: u8) -> (r: bool)
    ensures
        r == is_ascii_ws(b),
{
    b == 32 || b == 9 || b == 10 || b == 12 || b == 13
}

/// Length of the run of bytes at the start of `s` before its first whitespace character.
pub open spec fn word_len(s: Seq<u8>) -> nat
    decreases s.len(),
{
    if s.len() == 0 || ws_at(s, 0) > 0 {
        0
    } else {
        1 + word_len(s.drop_first())
    }
}

pub proof fn lemma_word_len_bound(s: Seq<u8>)
    ensures
        word_len(s) <= s.len(),
        s.len() > 0 && ws_at(s, 0) == 0 ==> word_len(s) >= 1,
    decreases s.len(),
{
    if s.len() > 0 && ws_at(s, 0) == 0 {
        lemma_word_len_bound(s.drop_first());
    }
}

/// The words of `s`: its maximal runs of bytes without a whitespace character, in
/// order, as `str::split_whitespace` gives them.
pub open spec fn split_ws(s: Seq<u8>) -> Seq<Seq<u8>>
    decreases s.len(),
{
    if s.len() == 0 {
        seq![]
    } else if ws_at(s, 0) > 0 {
        proof {
            lemma_ws_at_bound(s, 0);
        }
        split_ws(s.skip(ws_at(s, 0) as int))
    } else {
        let n = word_len(s);
        proof {
            lemma_word_len_bound(s);
        }
        seq![s.take(n as int)] + split_ws(s.skip(n as int))
    }
}

/// No whitespace character starts before `k`, and one starts at `k` or `k` ends
/// the input: then the first word of `s` has length `k`.
pub proof fn lemma_word_len_exact(s: Seq<u8>, k: int)
    requires
        0 <= k <= s.len(),
        forall|m: int| 0 <= m < k ==> #[trigger] ws_at(s, m) == 0,
        k == s.len() || ws_at(s, k) > 0,
    ensures
        word_len(s) == k,
    decreases k,
{
    if k > 0 {
        assert(ws_at(s, 0) == 0);
        assert forall|m: int| 0 <= m < k - 1 implies #[trigger] ws_at(s.drop_first(), m) == 0 by {
            lemma_ws_at_skip(s, 1, m);
            assert(s.drop_first() =~= s.skip(1));
            assert(ws_at(s, m + 1) == 0);
        }
        assert(s.drop_first() =~= s.skip(1));
        lemma_ws_at_skip(s, 1, k - 1);
        lemma_word_len_exact(s.drop_first(), k - 1);
    }
}

/// The words joined by single spaces, as `[&str]::join(" ")` does.
pub open spec fn join_space(ws: Seq<Seq<u8>>) -> Seq<u8>
    decreases ws.len(),
{
    if ws.len() == 0 {
        seq![]
    } else if ws.len() == 1 {
        ws[0]
    } else {
        join_space(ws.drop_last()) + seq![32u8] + ws.last()
    }
}

/// Number of bytes of the first line of `s`, its '\n' included
/// (all of `s` when it holds no '\n'), as `BufRead::read_line` takes it.
pub open spec fn line_len(s: Seq<u8>) -> nat
    decreases s.len(),
{
    if s.len() == 0 {
        0
    } else if s[0] == 10 {
        1
    } else {
        1 + line_len(s.drop_first())
    }
}

pub proof fn lemma_line_len_bound(s: Seq<u8>)
    ensures
        line_len(s) <= s.len(),
        s.len() > 0 ==> line_len(s) >= 1,
    decreases s.len(),
{
    if s.len() > 0 && s[0] != 10 {
        lemma_line_len_bound(s.drop_first());
    }
}

pub proof fn lemma_line_len_exact(s: Seq<u8>, k: int)
    requires
        0 <= k <= s.len(),
        forall|m: int| 0 <= m < k ==> #[trigger] s[m] != 10,
        k == s.len() || s[k] == 10,
    ensures
        line_len(s) == if k == s.len() { k } else { k + 1 },
    decreases k,
{
    if k > 0 {
        assert forall|m: int| 0 <= m < k - 1 implies #[trigger] s.drop_first()[m] != 10 by {
            assert(s.drop_first()[m] == s[m + 1]);
        }
        lemma_line_len_exact(s.drop_first(), k - 1);
    }
}

/// Copies `s[start..end]` into a new vector.
pub fn copy_range(s: &[u8], start: usize, end: usize) -> (r: Vec<u8>)
    requires
        start <= end <= s@.len(),
    ensures
        r@ == s@.subrange(start as int, end as int),
{
    let mut r: Vec<u8> = Vec::new();
    let mut i = start;
    while i < end
        invariant
            start <= i <= end <= s@.len(),
            r@ == s@.subrange(start as int, i as int),
        decreases end - i,
    {
        r.push(s[i]);
        i = i + 1;
        assert(r@ =~= s@.subrange(start as int, i as int));
    }
    r
}

/// Appends all of `b` to `out`.
pub fn append_bytes(out: &mut Vec<u8>, b: &[u8])
    ensures
        final(out)@ == old(out)@ + b@,
{
    let mut i: usize = 0;
    while i < b.len()
        invariant
            i <= b@.len(),
            out@ == old(out)@ + b@.take(i as int),
        decreases b@.len() - i,
    {
        out.push(b[i]);
        i = i + 1;
        assert(out@ =~= old(out)@ + b@.take(i as int));
    }
    assert(b@.take(b@.len() as int) =~= b@);
}

pub fn eq_bytes(a: &[u8], b: &[u8]) -> (r: bool)
    ensures
        r == (a@ == b@),
{
    if a.len() != b.len() {
        return false;
    }
    let mut i: usize = 0;
    while i < a.len()
        invariant
            a@.len() == b@.len(),
            i <= a@.len(),
            forall|j: int| 0 <= j < i ==> a@[j] == b@[j],
        decreases a@.len() - i,
    {
        if a[i] != b[i] {
            return false;
        }
        i = i + 1;
    }
    assert(a@ =~= b@);
    true
}


/// The views of a vector of byte vectors.
pub open spec fn views(v: Seq<Vec<u8>>) -> Seq<Seq<u8>> {
    v.map_values(|w: Vec<u8>| w@)
}

/// Skipping a whitespace character does not change the words.
pub proof fn lemma_split_skip_space(s: Seq<u8>, i: int)
    requires
        0 <= i < s.len(),
        ws_at(s, i) > 0,
    ensures
        split_ws(s.skip(i)) == split_ws(s.skip(i + ws_at(s, i))),
{
    lemma_ws_at_skip(s, i, 0);
    lemma_ws_at_bound(s, i);
    assert(s.skip(i).skip(ws_at(s, i) as int) =~= s.skip(i + ws_at(s, i)));
}

/// A word running from `i` to `j` is the next word of `s.skip(i)`.
pub proof fn lemma_split_word(s: Seq<u8>, i: int, j: int)
    requires
        0 <= i < j <= s.len(),
        forall|m: int| i <= m < j ==> #[trigger] ws_at(s, m) == 0,
        j == s.len() || ws_at(s, j) > 0,
    ensures
        split_ws(s.skip(i)) == seq![s.subrange(i, j)] + split_ws(s.skip(j)),
{
    let t = s.skip(i);
    assert forall|m: int| 0 <= m < j - i implies #[trigger] ws_at(t, m) == 0 by {
        lemma_ws_at_skip(s, i, m);
        assert(ws_at(s, i + m) == 0);
    }
    lemma_ws_at_skip(s, i, j - i);
    lemma_word_len_exact(t, j - i);
    assert(t.take(j - i) =~= s.subrange(i, j));
    assert(t.skip(j - i) =~= s.skip(j));
    assert(ws_at(t, 0) == 0);
}

/// Splits `s` into its words, as `str::split_whitespace` does.
pub fn split_words(s: &[u8]) -> (r: Vec<Vec<u8>>)
    ensures
        views(r@) == split_ws(s@),
{
    let mut r: Vec<Vec<u8>> = Vec::new();
    let mut i: usize = 0;
    assert(s@.skip(0) =~= s@);
    while i < s.len()
        invariant
            i <= s@.len(),
            views(r@) + split_ws(s@.skip(i as int)) == split_ws(s@),
        decreases s@.len() - i,
    {
        let n = ws_len(s, i);
        if n > 0 {
            proof {
                lemma_split_skip_space(s@, i as int);
                lemma_ws_at_bound(s@, i as int);
            }
            i = i + n;
        } else {
            let mut j = i + 1;
            while j < s.len() && ws_len(s, j) == 0
                invariant
                    i < j <= s@.len(),
                    ws_at(s@, i as int) == 0,
                    forall|m: int| i <= m < j ==> #[trigger] ws_at(s@, m) == 0,
                decreases s@.len() - j,
            {
                j = j + 1;
            }
            let w = copy_range(s, i, j);
            proof {
                lemma_split_word(s@, i as int, j as int);
                assert(views(r@.push(w)) =~= views(r@).push(w@));
                assert(views(r@).push(w@) + split_ws(s@.skip(j as int)) =~= views(r@) + (seq![
                    w@,
                ] + split_ws(s@.skip(j as int))));
            }
            r.push(w);
            i = j;
        }
    }
    assert(s@.skip(i as int) =~= Seq::<u8>::empty());
    assert(views(r@) + Seq::<Seq<u8>>::empty() =~= views(r@));
    r
}

/// Joins `ws[from..]` with single spaces.
pub fn join_words(ws: &Vec<Vec<u8>>, from: usize) -> (r: Vec<u8>)
    requires
        from <= ws@.len(),
    ensures
        r@ == join_space(views(ws@).skip(from as int)),
{
    let mut r: Vec<u8> = Vec::new();
    let mut k = from;
    let ghost all = views(ws@).skip(from as int);
    assert(all.take(0) =~= Seq::<Seq<u8>>::empty());
    while k < ws.len()
        invariant
            from <= k <= ws@.len(),
            all == views(ws@).skip(from as int),
            r@ == join_space(all.take(k - from)),
        decreases ws@.len() - k,
    {
        let ghost before = all.take(k - from);
        if k > from {
            r.push(32u8);
        }
        append_bytes(&mut r, ws[k].as_slice());
        k = k + 1;
        proof {
            let now = all.take(k - from);
            assert(now.drop_last() =~= before);
            assert(now.last() == ws@[k - 1]@);
            if k - 1 > from {
                assert(r@ =~= join_space(before) + seq![32u8] + now.last());
            } else {
                assert(r@ =~= now[0]);
            }
        }
    }
    assert(all.take(ws@.len() - from) =~= all);
    r
}

/// The length of the first line of `s[start..]`.
pub fn line_length(s: &[u8], start: usize) -> (n: usize)
    requires
        start <= s@.len(),
    ensures
        n == line_len(s@.skip(start as int)),
        start + n <= s@.len(),
{
    let mut j = start;
    while j < s.len() && s[j] != 10u8
        invariant
            start <= j <= s@.len(),
            forall|m: int| start <= m < j ==> #[trigger] s@[m] != 10,
        decreases s@.len() - j,
    {
        j = j + 1;
    }
    let ghost t = s@.skip(start as int);
    proof {
        assert forall|m: int| 0 <= m < j - start implies #[trigger] t[m] != 10 by {
            assert(t[m] == s@[start + m]);
        }
        lemma_line_len_exact(t, j - start);
    }
    if j < s.len() {
        j - start + 1
    } else {
        j - start
    }
}


pub open spec fn is_digit(b: u8) -> bool {
    48 <= b && b <= 57
}

pub open spec fn all_digits(s: Seq<u8>) -> bool {
    forall|i: int| 0 <= i < s.len() ==> is_digit(#[trigger] s[i])
}

/// The number that the decimal digits `s` write (most significant first).
pub open spec fn digits_value(s: Seq<u8>) -> nat
    decreases s.len(),
{
    if s.len() == 0 {
        0
    } else {
        digits_value(s.drop_last()) * 10 + (s.last() - 48) as nat
    }
}

/// What `u*::from_str` accepts: an optional '+', then one or more decimal digits.
/// The result is the number written, before any range check.
pub open spec fn unsigned_value(t: Seq<u8>) -> Option<nat> {
    let d = if t.len() > 0 && t[0] == 43 {
        t.drop_first()
    } else {
        t
    };
    if d.len() > 0 && all_digits(d) {
        Some(digits_value(d))
    } else {
        None
    }
}

/// What `i*::from_str` accepts: an optional '+' or '-', then one or more decimal
/// digits. The result is the number written, before any range check.
pub open spec fn signed_value(t: Seq<u8>) -> Option<int> {
    if t.len() > 0 && t[0] == 45 {
        let d = t.drop_first();
        if d.len() > 0 && all_digits(d) {
            Some(-(digits_value(d) as int))
        } else {
            None
        }
    } else {
        match unsigned_value(t) {
            Some(v) => Some(v as int),
            None => None,
        }
    }
}

/// Adding digits never makes the value smaller.
pub proof fn lemma_digits_value_prefix(s: Seq<u8>, k: int)
    requires
        0 <= k <= s.len(),
        all_digits(s),
    ensures
        digits_value(s.take(k)) <= digits_value(s),
    decreases s.len() - k,
{
    if k < s.len() {
        lemma_digits_value_prefix(s, k + 1);
        assert(s.take(k + 1).drop_last() =~= s.take(k));
    } else {
        assert(s.take(k) =~= s);
    }
}

/// Reads the digits `s[start..]` as a number no greater than `limit`:
/// `None` when a byte is not a digit, when there is none, or when the number exceeds `limit`.
pub fn parse_digits(s: &[u8], start: usize, limit: u64) -> (r: Option<u64>)
    requires
        start <= s@.len(),
    ensures
        ({
            let d = s@.skip(start as int);
            match r {
                Some(v) => d.len() > 0 && all_digits(d) && v == digits_value(d) && v <= limit,
                None => !(d.len() > 0 && all_digits(d) && digits_value(d) <= limit),
            }
        }),
{
    let ghost d = s@.skip(start as int);
    if start == s.len() {
        return None;
    }
    let mut acc: u64 = 0;
    let mut i = start;
    assert(d.take(0) =~= Seq::<u8>::empty());
    while i < s.len()
        invariant
            start <= i <= s@.len(),
            d == s@.skip(start as int),
            all_digits(d.take(i - start)),
            acc == digits_value(d.take(i - start)),
            acc <= limit,
        decreases s@.len() - i,
    {
        let b = s[i];
        if b < 48u8 || b > 57u8 {
            assert(d[i - start] == b);
            return None;
        }
        let dig = (b - 48u8) as u64;
        if dig > limit || acc > (limit - dig) / 10 {
            proof {
                assert(d.take(i - start + 1).drop_last() =~= d.take(i - start));
                assert(digits_value(d.take(i - start + 1)) == acc * 10 + dig);
                assert(acc * 10 + dig > limit) by (nonlinear_arith)
                    requires
                        dig > limit || acc > (limit - dig) / 10,
                ;
                if all_digits(d) {
                    lemma_digits_value_prefix(d, i - start + 1);
                }
            }
            return None;
        }
        proof {
            assert(d.take(i - start + 1).drop_last() =~= d.take(i - start));
            assert(acc * 10 + dig <= limit) by (nonlinear_arith)
                requires
                    acc <= (limit - dig) / 10,
                    dig <= limit,
            ;
        }
        acc = acc * 10 + dig;
        i = i + 1;
        assert(all_digits(d.take(i - start)));
    }
    assert(d.take(i - start) =~= d);
    Some(acc)
}

/// The decimal digits of `n`, most significant first, without leading zeros.
pub open spec fn decimal(n: nat) -> Seq<u8>
    decreases n,
{
    if n < 10 {
        seq![(48 + n) as u8]
    } else {
        decimal(n / 10).push((48 + n % 10) as u8)
    }
}

/// `n` written in decimal, with a leading '-' when negative.
pub open spec fn signed_decimal(n: int) -> Seq<u8> {
    if n < 0 {
        seq![45u8] + decimal((-n) as nat)
    } else {
        decimal(n as nat)
    }
}

pub proof fn lemma_decimal(n: nat)
    ensures
        decimal(n).len() >= 1,
        all_digits(decimal(n)),
        digits_value(decimal(n)) == n,
    decreases n,
{
    if n >= 10 {
        lemma_decimal(n / 10);
        let s = decimal(n);
        assert(s.drop_last() =~= decimal(n / 10));
        assert(s.last() == (48 + n % 10) as u8);
        assert((s.last() - 48) as nat == n % 10);
        assert(n == (n / 10) * 10 + n % 10);
    } else {
        let s = decimal(n);
        assert(s.drop_last() =~= Seq::<u8>::empty());
        assert(digits_value(s.drop_last()) == 0);
    }
}

/// Reading a number back from its decimal text gives the number.
pub proof fn lemma_decimal_roundtrip(n: int)
    ensures
        signed_value(signed_decimal(n)) == Some(n),
        n >= 0 ==> unsigned_value(signed_decimal(n)) == Some(n as nat),
{
    if n < 0 {
        lemma_decimal((-n) as nat);
        let s = signed_decimal(n);
        assert(s.drop_first() =~= decimal((-n) as nat));
    } else {
        lemma_decimal(n as nat);
    }
}

/// Appends the decimal digits of `n` to `out`.
pub fn push_decimal(out: &mut Vec<u8>, n: u64)
    ensures
        final(out)@ == old(out)@ + decimal(n as nat),
    decreases n,
{
    if n >= 10 {
        push_decimal(out, n / 10);
    }
    out.push(48u8 + (n % 10) as u8);
    proof {
        if n >= 10 {
            assert(final(out)@ =~= old(out)@ + decimal(n as nat));
        } else {
            assert(final(out)@ =~= old(out)@ + decimal(n as nat));
        }
    }
}


/// The first word of `s` ends at a whitespace character or at the end of `s`.
pub proof fn lemma_word_len_stop(s: Seq<u8>)
    ensures
        word_len(s) <= s.len(),
        forall|m: int| 0 <= m < word_len(s) ==> #[trigger] ws_at(s, m) == 0,
        word_len(s) == s.len() || ws_at(s, word_len(s) as int) > 0,
    decreases s.len(),
{
    if s.len() > 0 && ws_at(s, 0) == 0 {
        let t = s.drop_first();
        assert(t =~= s.skip(1));
        lemma_word_len_stop(t);
        assert forall|m: int| 0 <= m < word_len(s) implies #[trigger] ws_at(s, m) == 0 by {
            if m > 0 {
                lemma_ws_at_skip(s, 1, m - 1);
                assert(ws_at(t, m - 1) == 0);
            }
        }
        if word_len(s) < s.len() {
            lemma_ws_at_skip(s, 1, word_len(t) as int);
        }
    }
}

/// A word followed by an ASCII whitespace byte starts the words.
pub proof fn lemma_split_cons(w: Seq<u8>, rest: Seq<u8>)
    requires
        w.len() > 0,
        no_ws(w),
        rest.len() > 0,
        is_space(rest[0]),
    ensures
        split_ws(w + rest) == seq![w] + split_ws(rest),
{
    let s = w + rest;
    assert forall|m: int| 0 <= m < w.len() implies #[trigger] ws_at(s, m) == 0 by {
        lemma_ws_at_left(w, rest, m);
    }
    lemma_ws_at_right(w, rest, 0);
    lemma_word_len_exact(s, w.len() as int);
    assert(s.take(w.len() as int) =~= w);
    assert(s.skip(w.len() as int) =~= rest);
    assert(ws_at(s, 0) == 0);
}

/// ASCII whitespace in front does not change the words.
pub proof fn lemma_split_space_prefix(sp: Seq<u8>, rest: Seq<u8>)
    requires
        forall|i: int| 0 <= i < sp.len() ==> is_space(#[trigger] sp[i]),
    ensures
        split_ws(sp + rest) == split_ws(rest),
    decreases sp.len(),
{
    if sp.len() == 0 {
        assert(sp + rest =~= rest);
    } else {
        let s = sp + rest;
        assert(s[0] == sp[0]);
        assert(ws_at(s, 0) == 1);
        assert(s.skip(1) =~= sp.drop_first() + rest);
        assert forall|i: int| 0 <= i < sp.drop_first().len() implies is_space(
            #[trigger] sp.drop_first()[i],
        ) by {
            assert(sp.drop_first()[i] == sp[i + 1]);
        }
        lemma_split_space_prefix(sp.drop_first(), rest);
    }
}

/// ASCII whitespace at the end does not change the words.
pub proof fn lemma_split_space_suffix(a: Seq<u8>, sp: Seq<u8>)
    requires
        forall|i: int| 0 <= i < sp.len() ==> is_space(#[trigger] sp[i]),
    ensures
        split_ws(a + sp) == split_ws(a),
    decreases a.len(),
{
    let s = a + sp;
    if sp.len() > 0 {
        assert(is_space(sp[0]));
    }
    if a.len() == 0 {
        assert(s =~= sp + Seq::<u8>::empty());
        lemma_split_space_prefix(sp, Seq::<u8>::empty());
        assert(split_ws(Seq::<u8>::empty()) =~= Seq::<Seq<u8>>::empty());
    } else if ws_at(a, 0) > 0 {
        let n = ws_at(a, 0);
        lemma_ws_at_left(a, sp, 0);
        lemma_ws_at_bound(a, 0);
        assert(s.skip(n as int) =~= a.skip(n as int) + sp);
        lemma_split_space_suffix(a.skip(n as int), sp);
    } else {
        let n = word_len(a);
        lemma_word_len_stop(a);
        lemma_word_len_bound(a);
        assert forall|m: int| 0 <= m < n implies #[trigger] ws_at(s, m) == 0 by {
            lemma_ws_at_left(a, sp, m);
        }
        if n < a.len() {
            lemma_ws_at_left(a, sp, n as int);
        } else if sp.len() > 0 {
            lemma_ws_at_right(a, sp, 0);
        }
        lemma_word_len_exact(s, n as int);
        assert(s.take(n as int) =~= a.take(n as int));
        assert(s.skip(n as int) =~= a.skip(n as int) + sp);
        lemma_ws_at_left(a, sp, 0);
        lemma_split_space_suffix(a.skip(n as int), sp);
    }
}

/// A word alone on its line.
pub proof fn lemma_split_last(w: Seq<u8>)
    requires
        w.len() > 0,
        no_ws(w),
    ensures
        split_ws(w + seq![10u8]) == seq![w],
{
    lemma_split_cons(w, seq![10u8]);
    lemma_split_space_prefix(seq![10u8], Seq::<u8>::empty());
    assert(seq![10u8] + Seq::<u8>::empty() =~= seq![10u8]);
    assert(split_ws(Seq::<u8>::empty()) =~= Seq::<Seq<u8>>::empty());
    assert(seq![w] + Seq::<Seq<u8>>::empty() =~= seq![w]);
}

/// An ASCII whitespace byte separates words: the words of `a`, that byte and `b`
/// are those of `a`, then those of `b`.
pub proof fn lemma_split_concat(a: Seq<u8>, sp: u8, b: Seq<u8>)
    requires
        is_space(sp),
    ensures
        split_ws(a + seq![sp] + b) == split_ws(a) + split_ws(b),
    decreases a.len(),
{
    let s = a + seq![sp] + b;
    let c = seq![sp] + b;
    assert(s =~= a + c);
    assert(c[0] == sp);
    if a.len() == 0 {
        assert(s =~= seq![sp] + b);
        lemma_split_space_prefix(seq![sp], b);
        assert(split_ws(a) =~= Seq::<Seq<u8>>::empty());
        assert(split_ws(a) + split_ws(b) =~= split_ws(b));
    } else if ws_at(a, 0) > 0 {
        let n = ws_at(a, 0);
        lemma_ws_at_left(a, c, 0);
        lemma_ws_at_bound(a, 0);
        assert(s.skip(n as int) =~= a.skip(n as int) + seq![sp] + b);
        lemma_split_concat(a.skip(n as int), sp, b);
    } else {
        let n = word_len(a);
        lemma_word_len_stop(a);
        lemma_word_len_bound(a);
        assert forall|m: int| 0 <= m < n implies #[trigger] ws_at(s, m) == 0 by {
            lemma_ws_at_left(a, c, m);
        }
        if n < a.len() {
            lemma_ws_at_left(a, c, n as int);
        } else {
            lemma_ws_at_right(a, c, 0);
        }
        lemma_word_len_exact(s, n as int);
        assert(s.take(n as int) =~= a.take(n as int));
        assert(s.skip(n as int) =~= a.skip(n as int) + seq![sp] + b);
        lemma_ws_at_left(a, c, 0);
        lemma_split_concat(a.skip(n as int), sp, b);
        assert(seq![a.take(n as int)] + (split_ws(a.skip(n as int)) + split_ws(b)) =~= (seq![
            a.take(n as int),
        ] + split_ws(a.skip(n as int))) + split_ws(b));
    }
}

/// A single word has itself as its only word.
pub proof fn lemma_split_single(w: Seq<u8>)
    requires
        w.len() > 0,
        no_ws(w),
    ensures
        split_ws(w) == seq![w],
{
    lemma_word_len_exact(w, w.len() as int);
    assert(w.take(w.len() as int) =~= w);
    assert(w.skip(w.len() as int) =~= Seq::<u8>::empty());
    assert(split_ws(Seq::<u8>::empty()) =~= Seq::<Seq<u8>>::empty());
    assert(seq![w] + Seq::<Seq<u8>>::empty() =~= seq![w]);
    assert(ws_at(w, 0) == 0);
}

/// Words without whitespace, joined by single spaces, split back into the same words.
pub proof fn lemma_split_join(ws: Seq<Seq<u8>>)
    requires
        forall|i: int| 0 <= i < ws.len() ==> (#[trigger] ws[i]).len() > 0 && no_ws(ws[i]),
    ensures
        split_ws(join_space(ws)) == ws,
    decreases ws.len(),
{
    if ws.len() == 0 {
    } else if ws.len() == 1 {
        assert(ws[0].len() > 0 && no_ws(ws[0]));
        lemma_split_single(ws[0]);
        assert(seq![ws[0]] =~= ws);
    } else {
        let init = ws.drop_last();
        assert forall|i: int| 0 <= i < init.len() implies (#[trigger] init[i]).len() > 0 && no_ws(init[i]) by {
            assert(init[i] == ws[i]);
        }
        lemma_split_join(init);
        lemma_split_concat(join_space(init), 32u8, ws.last());
        assert(ws.last() == ws[ws.len() - 1]);
        lemma_split_single(ws.last());
        assert(init + seq![ws.last()] =~= ws);
    }
}

/// The words of any text are non-empty and hold no whitespace character.
pub proof fn lemma_split_ws_words(s: Seq<u8>)
    ensures
        forall|i: int| 0 <= i < split_ws(s).len() ==> (#[trigger] split_ws(s)[i]).len() > 0 && no_ws(
            split_ws(s)[i],
        ),
    decreases s.len(),
{
    if s.len() == 0 {
    } else if ws_at(s, 0) > 0 {
        lemma_ws_at_bound(s, 0);
        lemma_split_ws_words(s.skip(ws_at(s, 0) as int));
        assert(split_ws(s) == split_ws(s.skip(ws_at(s, 0) as int)));
    } else {
        let n = word_len(s);
        lemma_word_len_bound(s);
        lemma_word_len_stop(s);
        assert(n > 0);
        lemma_split_ws_words(s.skip(n as int));
        let w = s.take(n as int);
        assert forall|m: int| 0 <= m < w.len() implies ws_at(w, m) == 0 by {
            if ws_at(w, m) > 0 {
                lemma_ws_at_prefix(s, n as int, m);
                assert(ws_at(s, m) == 0);
            }
        }
        let ws = split_ws(s);
        let rest = split_ws(s.skip(n as int));
        assert(ws == seq![w] + rest);
        assert(no_ws(w));
        assert forall|i: int| 0 <= i < ws.len() implies (#[trigger] ws[i]).len() > 0 && no_ws(ws[i]) by {
            if i > 0 {
                assert(ws[i] == rest[i - 1]);
                assert(rest[i - 1].len() > 0 && no_ws(rest[i - 1]));
            } else {
                assert(ws[i] == w);
            }
        }
    }
}

/// Words without whitespace, joined by spaces, hold no '\n'.
pub proof fn lemma_join_no_newline(ws: Seq<Seq<u8>>)
    requires
        forall|i: int| 0 <= i < ws.len() ==> no_ws(#[trigger] ws[i]),
    ensures
        forall|k: int| 0 <= k < join_space(ws).len() ==> #[trigger] join_space(ws)[k] != 10,
    decreases ws.len(),
{
    if ws.len() == 0 {
    } else if ws.len() == 1 {
        assert forall|k: int| 0 <= k < join_space(ws).len() implies #[trigger] join_space(ws)[k] != 10 by {
            assert(no_ws(ws[0]));
            assert(ws_at(ws[0], k) == 0);
        }
    } else {
        let init = ws.drop_last();
        assert forall|i: int| 0 <= i < init.len() implies no_ws(#[trigger] init[i]) by {
            assert(init[i] == ws[i]);
        }
        lemma_join_no_newline(init);
        let a = join_space(init);
        let j = join_space(ws);
        assert(j == a + seq![32u8] + ws.last());
        assert(ws.last() == ws[ws.len() - 1]);
        assert(no_ws(ws.last()));
        assert forall|k: int| 0 <= k < j.len() implies #[trigger] j[k] != 10 by {
            if k < a.len() {
                assert(j[k] == a[k]);
            } else if k == a.len() {
            } else {
                assert(j[k] == ws.last()[k - a.len() - 1]);
                assert(ws_at(ws.last(), k - a.len() - 1) == 0);
            }
        }
    }
}

} // verus!
