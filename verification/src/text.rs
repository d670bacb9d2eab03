//! Text building blocks: decimal rendering, padding, and the string
//! predicates shared by the parsers.
use vstd::prelude::*;

verus! {

/// The ASCII digit for `d` (0..=9).
pub open spec fn digit_char(d: nat) -> char {
    if d == 0 {
        '0'
    } else if d == 1 {
        '1'
    } else if d == 2 {
        '2'
    } else if d == 3 {
        '3'
    } else if d == 4 {
        '4'
    } else if d == 5 {
        '5'
    } else if d == 6 {
        '6'
    } else if d == 7 {
        '7'
    } else if d == 8 {
        '8'
    } else {
        '9'
    }
}

/// Decimal rendering of `n`, most significant digit first, no leading zeros.
pub open spec fn dec(n: nat) -> Seq<char>
    decreases n,
{
    if n < 10 {
        seq![digit_char(n)]
    } else {
        dec(n / 10).push(digit_char(n % 10))
    }
}

/// `s` left-padded with `'0'` up to `width` characters.
pub open spec fn zero_pad(s: Seq<char>, width: nat) -> Seq<char> {
    if s.len() >= width {
        s
    } else {
        Seq::new((width - s.len()) as nat, |i: int| '0') + s
    }
}

/// `s` right-padded with spaces up to `width` characters.
pub open spec fn pad_right(s: Seq<char>, width: nat) -> Seq<char> {
    if s.len() >= width {
        s
    } else {
        s + Seq::new((width - s.len()) as nat, |i: int| ' ')
    }
}

fn digit_str(d: u64) -> (s: &'static str)
    requires
        d < 10,
    ensures
        s@ == seq![digit_char(d as nat)],
{
    proof {
        reveal_strlit("0");
        reveal_strlit("1");
        reveal_strlit("2");
        reveal_strlit("3");
        reveal_strlit("4");
        reveal_strlit("5");
        reveal_strlit("6");
        reveal_strlit("7");
        reveal_strlit("8");
        reveal_strlit("9");
    }
    if d == 0 {
        "0"
    } else if d == 1 {
        "1"
    } else if d == 2 {
        "2"
    } else if d == 3 {
        "3"
    } else if d == 4 {
        "4"
    } else if d == 5 {
        "5"
    } else if d == 6 {
        "6"
    } else if d == 7 {
        "7"
    } else if d == 8 {
        "8"
    } else {
        "9"
    }
}

/// Appends the decimal rendering of `n`.
pub fn push_dec(out: &mut String, n: u64)
    ensures
        final(out)@ == old(out)@ + dec(n as nat),
    decreases n,
{
    if n >= 10 {
        push_dec(out, n / 10);
    }
    let d = digit_str(n % 10);
    out.append(d);
    proof {
        if n >= 10 {
            assert(old(out)@ + dec((n / 10) as nat) + seq![digit_char((n % 10) as nat)] =~= old(out)@
                + dec(n as nat));
        } else {
            assert(old(out)@ + seq![digit_char(n as nat)] =~= old(out)@ + dec(n as nat));
        }
    }
}

/// An ASCII decimal digit.
pub open spec fn is_digit(c: char) -> bool {
    48 <= (c as u32) <= 57
}

/// Every character of `t` is an ASCII decimal digit.
pub open spec fn all_digits(t: Seq<char>) -> bool {
    forall|i: int| 0 <= i < t.len() ==> is_digit(#[trigger] t[i])
}

/// The number that the ASCII digits `t` spell in base 10.
pub open spec fn digits_value(t: Seq<char>) -> nat
    decreases t.len(),
{
    if t.len() == 0 {
        0
    } else {
        digits_value(t.drop_last()) * 10 + ((t.last() as u32) - 48) as nat
    }
}

/// Decimal renderings are digit strings that read back as their number,
/// with the expected length.
pub proof fn lemma_dec_digits(n: nat)
    ensures
        all_digits(dec(n)),
        digits_value(dec(n)) == n,
        dec(n).len() >= 1,
        n < 10 ==> dec(n).len() == 1,
        10 <= n < 100 ==> dec(n).len() == 2,
        100 <= n < 1000 ==> dec(n).len() == 3,
        1000 <= n < 10000 ==> dec(n).len() == 4,
        n >= 10000 ==> dec(n).len() >= 5,
        dec(n).len() <= n + 1,
    decreases n,
{
    assert(digit_char(n % 10) as u32 == 48 + n % 10);
    if n >= 10 {
        lemma_dec_digits(n / 10);
        let d = dec(n);
        assert(d.drop_last() =~= dec(n / 10));
        assert(digits_value(d) == digits_value(d.drop_last()) * 10 + ((d.last() as u32) - 48) as nat);
        assert forall|i: int| 0 <= i < d.len() implies is_digit(#[trigger] d[i]) by {
            if i < d.len() - 1 {
                assert(d[i] == dec(n / 10)[i]);
            }
        }
    } else {
        assert(dec(n).drop_last() =~= Seq::<char>::empty());
        assert(digits_value(Seq::<char>::empty()) == 0);
    }
}

/// Leading zeros change neither the value nor the digit-ness of a string.
pub proof fn lemma_zero_prefix(k: nat, t: Seq<char>)
    ensures
        digits_value(Seq::new(k, |i: int| '0') + t) == digits_value(t),
        all_digits(t) ==> all_digits(Seq::new(k, |i: int| '0') + t),
    decreases t.len() + k,
{
    let z = Seq::new(k, |i: int| '0');
    if t.len() == 0 {
        assert(z + t =~= z);
        if k > 0 {
            assert(z.drop_last() =~= Seq::new((k - 1) as nat, |i: int| '0'));
            lemma_zero_prefix((k - 1) as nat, t);
            assert(Seq::new((k - 1) as nat, |i: int| '0') + t =~= Seq::new(
                (k - 1) as nat,
                |i: int| '0',
            ));
        }
    } else {
        assert((z + t).drop_last() =~= z + t.drop_last());
        lemma_zero_prefix(k, t.drop_last());
    }
    if all_digits(t) {
        assert forall|i: int| 0 <= i < (z + t).len() implies is_digit(#[trigger] (z + t)[i]) by {
            if i >= k {
                assert((z + t)[i] == t[i - k]);
            }
        }
    }
}

/// Zero-padded decimal renderings read back as the number they render.
pub proof fn lemma_zero_pad_dec(n: nat, width: nat)
    ensures
        all_digits(zero_pad(dec(n), width)),
        digits_value(zero_pad(dec(n), width)) == n,
        zero_pad(dec(n), width).len() >= width,
        zero_pad(dec(n), width).len() >= 1,
        dec(n).len() <= width ==> zero_pad(dec(n), width).len() == width,
{
    lemma_dec_digits(n);
    if dec(n).len() < width {
        lemma_zero_prefix((width - dec(n).len()) as nat, dec(n));
    }
}

/// Appends `n` in decimal, left-padded with zeros to `width` characters.
pub fn push_zero_padded(out: &mut String, n: u64, width: u64)
    ensures
        final(out)@ == old(out)@ + zero_pad(dec(n as nat), width as nat),
{
    let len = dec_len(n);
    let mut i: u64 = len;
    while i < width
        invariant
            len == dec(n as nat).len(),
            len <= i,
            i <= width || i == len,
            out@ == old(out)@ + Seq::new((i - len) as nat, |k: int| '0'),
        decreases width - i,
    {
        proof {
            reveal_strlit("0");
        }
        out.append("0");
        assert(Seq::new((i - len) as nat, |k: int| '0').push('0') =~= Seq::new(
            (i + 1 - len) as nat,
            |k: int| '0',
        ));
        i = i + 1;
    }
    push_dec(out, n);
    if len < width {
        assert(i == width);
    } else {
        assert(Seq::new((i - len) as nat, |k: int| '0') =~= Seq::<char>::empty());
    }
    assert(old(out)@ + Seq::new((i - len) as nat, |k: int| '0') + dec(n as nat) =~= old(out)@
        + zero_pad(dec(n as nat), width as nat));
}

/// Number of decimal digits of `n`.
pub fn dec_len(n: u64) -> (len: u64)
    ensures
        len == dec(n as nat).len(),
    decreases n,
{
    proof {
        lemma_dec_digits(n as nat);
    }
    if n < 10 {
        1
    } else {
        let l = dec_len(n / 10);
        proof {
            lemma_dec_digits((n / 10) as nat);
        }
        l + 1
    }
}

/// Reads the characters `from..to` of `s` as a field of ASCII digits: the
/// number they spell, or `None` when a character is not a digit.
pub fn read_digits(s: &str, from: usize, to: usize) -> (r: Option<u64>)
    requires
        from <= to <= s@.len(),
        to - from <= 4,
    ensures
        match r {
            Some(v) => all_digits(s@.subrange(from as int, to as int)) && v == digits_value(
                s@.subrange(from as int, to as int),
            ),
            None => !all_digits(s@.subrange(from as int, to as int)),
        },
        r matches Some(v) ==> v < 10000,
{
    let mut value: u64 = 0;
    let mut i = from;
    while i < to
        invariant
            from <= i <= to <= s@.len(),
            to - from <= 4,
            all_digits(s@.subrange(from as int, i as int)),
            value == digits_value(s@.subrange(from as int, i as int)),
            i - from <= 3 ==> value < 1000,
            value < 10000,
        decreases to - i,
    {
        let c = s.get_char(i);
        let cu = c as u32;
        if !(48 <= cu && cu <= 57) {
            assert(s@.subrange(from as int, to as int)[i - from] == c);
            return None;
        }
        proof {
            let p = s@.subrange(from as int, (i + 1) as int);
            assert(p.drop_last() =~= s@.subrange(from as int, i as int));
            assert(p.last() == c);
            assert forall|k: int| 0 <= k < p.len() implies is_digit(#[trigger] p[k]) by {
                if k < p.len() - 1 {
                    assert(p[k] == s@.subrange(from as int, i as int)[k]);
                }
            }
            lemma_digits_bound(s@.subrange(from as int, i as int));
            lemma_digits_bound(p);
        }
        value = value * 10 + (cu as u64 - 48);
        i = i + 1;
    }
    Some(value)
}

proof fn lemma_digits_bound(t: Seq<char>)
    requires
        all_digits(t),
    ensures
        t.len() <= 1 ==> digits_value(t) < 10,
        t.len() <= 2 ==> digits_value(t) < 100,
        t.len() <= 3 ==> digits_value(t) < 1000,
        t.len() <= 4 ==> digits_value(t) < 10000,
    decreases t.len(),
{
    if t.len() > 0 {
        assert forall|i: int| 0 <= i < t.drop_last().len() implies is_digit(
            #[trigger] t.drop_last()[i],
        ) by {
            assert(t.drop_last()[i] == t[i]);
        }
        lemma_digits_bound(t.drop_last());
        assert(is_digit(t[t.len() - 1]));
    }
}

/// Whether two strings hold the same characters.
pub fn same_text(a: &str, b: &str) -> (r: bool)
    ensures
        r == (a@ == b@),
{
    let n = a.unicode_len();
    if n != b.unicode_len() {
        return false;
    }
    let mut i: usize = 0;
    while i < n
        invariant
            n == a@.len() == b@.len(),
            0 <= i <= n,
            forall|k: int| 0 <= k < i ==> a@[k] == b@[k],
        decreases n - i,
    {
        if a.get_char(i) != b.get_char(i) {
            return false;
        }
        i = i + 1;
    }
    assert(a@ =~= b@);
    true
}

/// Unicode `White_Space`, the set that `char::is_whitespace` and
/// `str::trim` use.
pub open spec fn is_ws(c: char) -> bool {
    let u = c as u32;
    (9 <= u <= 13) || u == 32 || u == 0x85 || u == 0xA0 || u == 0x1680 || (0x2000 <= u <= 0x200A)
        || u == 0x2028 || u == 0x2029 || u == 0x202F || u == 0x205F || u == 0x3000
}

/// `s` without its leading white space.
pub open spec fn trim_start(s: Seq<char>) -> Seq<char>
    decreases s.len(),
{
    if s.len() > 0 && is_ws(s[0]) {
        trim_start(s.drop_first())
    } else {
        s
    }
}

/// `s` without its trailing white space.
pub open spec fn trim_end(s: Seq<char>) -> Seq<char>
    decreases s.len(),
{
    if s.len() > 0 && is_ws(s.last()) {
        trim_end(s.drop_last())
    } else {
        s
    }
}

/// `str::trim`: `s` without leading and trailing white space.
pub open spec fn trim(s: Seq<char>) -> Seq<char> {
    trim_end(trim_start(s))
}

/// `char::is_whitespace`.
pub fn is_whitespace(c: char) -> (r: bool)
    ensures
        r == is_ws(c),
{
    let u = c as u32;
    (9 <= u && u <= 13) || u == 32 || u == 0x85 || u == 0xA0 || u == 0x1680 || (0x2000 <= u && u
        <= 0x200A) || u == 0x2028 || u == 0x2029 || u == 0x202F || u == 0x205F || u == 0x3000
}

/// Bounds of `trim(s[a..b])` within `s`.
pub fn trim_bounds(s: &str, a: usize, b: usize) -> (r: (usize, usize))
    requires
        a <= b <= s@.len(),
    ensures
        a <= r.0 <= r.1 <= b,
        s@.subrange(r.0 as int, r.1 as int) == trim(s@.subrange(a as int, b as int)),
{
    let mut i = a;
    while i < b && is_whitespace(s.get_char(i))
        invariant
            a <= i <= b <= s@.len(),
            trim_start(s@.subrange(a as int, b as int)) == trim_start(s@.subrange(i as int, b as int)),
        decreases b - i,
    {
        assert(s@.subrange(i as int, b as int).drop_first() =~= s@.subrange(i + 1, b as int));
        assert(s@.subrange(i as int, b as int)[0] == s@[i as int]);
        i = i + 1;
    }
    proof {
        let t = s@.subrange(i as int, b as int);
        if i < b {
            assert(t[0] == s@[i as int]);
        }
        assert(trim_start(t) == t);
    }
    let mut j = b;
    while j > i && is_whitespace(s.get_char(j - 1))
        invariant
            a <= i <= j <= b <= s@.len(),
            trim(s@.subrange(a as int, b as int)) == trim_end(s@.subrange(i as int, j as int)),
        decreases j - i,
    {
        assert(s@.subrange(i as int, j as int).drop_last() =~= s@.subrange(i as int, j - 1));
        assert(s@.subrange(i as int, j as int).last() == s@[j - 1]);
        j = j - 1;
    }
    proof {
        let t = s@.subrange(i as int, j as int);
        if j > i {
            assert(t.last() == s@[j - 1]);
        }
        assert(trim_end(t) == t);
    }
    (i, j)
}

/// Index of the first `c` in `s`, or `s.len()` when there is none.
pub open spec fn first_index_of(s: Seq<char>, c: char) -> int
    decreases s.len(),
{
    if s.len() == 0 {
        0
    } else if s[0] == c {
        0
    } else {
        1 + first_index_of(s.drop_first(), c)
    }
}

/// `first_index_of` finds the first occurrence, or the end.
pub proof fn lemma_first_index_of(s: Seq<char>, c: char)
    ensures
        0 <= first_index_of(s, c) <= s.len(),
        first_index_of(s, c) < s.len() ==> s[first_index_of(s, c)] == c,
        forall|k: int| 0 <= k < first_index_of(s, c) ==> s[k] != c,
    decreases s.len(),
{
    if s.len() > 0 && s[0] != c {
        lemma_first_index_of(s.drop_first(), c);
        assert forall|k: int| 0 <= k < first_index_of(s, c) implies s[k] != c by {
            if k > 0 {
                assert(s[k] == s.drop_first()[k - 1]);
            }
        }
    }
}

/// Position of the first `c` in `s[a..b]` (`b` when there is none).
pub fn find_char(s: &str, a: usize, b: usize, c: char) -> (r: usize)
    requires
        a <= b <= s@.len(),
    ensures
        a <= r <= b,
        r - a == first_index_of(s@.subrange(a as int, b as int), c),
{
    let mut i = a;
    while i < b && s.get_char(i) != c
        invariant
            a <= i <= b <= s@.len(),
            first_index_of(s@.subrange(a as int, b as int), c) == (i - a) + first_index_of(
                s@.subrange(i as int, b as int),
                c,
            ),
        decreases b - i,
    {
        assert(s@.subrange(i as int, b as int).drop_first() =~= s@.subrange(i + 1, b as int));
        assert(s@.subrange(i as int, b as int)[0] == s@[i as int]);
        i = i + 1;
    }
    if i < b {
        assert(s@.subrange(i as int, b as int)[0] == s@[i as int]);
    }
    i
}

/// ASCII lower-casing of one character (other characters are unchanged).
pub open spec fn ascii_lower(c: char) -> u32 {
    let u = c as u32;
    if 65 <= u <= 90 {
        (u + 32) as u32
    } else {
        u
    }
}

/// `str::eq_ignore_ascii_case`.
pub open spec fn eq_ignore_case(a: Seq<char>, b: Seq<char>) -> bool {
    a.len() == b.len() && forall|i: int| 0 <= i < a.len() ==> ascii_lower(#[trigger] a[i]) == ascii_lower(b[i])
}

/// Whether `s[a..b]` equals `word` up to ASCII case.
pub fn eq_ignore_case_at(s: &str, a: usize, b: usize, word: &str) -> (r: bool)
    requires
        a <= b <= s@.len(),
    ensures
        r == eq_ignore_case(s@.subrange(a as int, b as int), word@),
{
    let n = word.unicode_len();
    if b - a != n {
        return false;
    }
    let mut i: usize = 0;
    while i < n
        invariant
            n == word@.len() == b - a,
            a <= b <= s@.len(),
            0 <= i <= n,
            forall|k: int|
                0 <= k < i ==> ascii_lower(#[trigger] s@.subrange(a as int, b as int)[k])
                    == ascii_lower(word@[k]),
        decreases n - i,
    {
        let x = s.get_char(a + i) as u32;
        let y = word.get_char(i) as u32;
        let lx = if 65 <= x && x <= 90 {
            x + 32
        } else {
            x
        };
        let ly = if 65 <= y && y <= 90 {
            y + 32
        } else {
            y
        };
        assert(s@.subrange(a as int, b as int)[i as int] == s@[a + i]);
        if lx != ly {
            return false;
        }
        i = i + 1;
    }
    true
}

/// Appends `s[a..b]`.
pub fn push_slice(out: &mut String, s: &str, a: usize, b: usize)
    requires
        a <= b <= s@.len(),
    ensures
        final(out)@ == old(out)@ + s@.subrange(a as int, b as int),
{
    let piece = s.substring_char(a, b);
    out.append(piece);
}

} // verus!
