//! Character-level text helpers shared by the search, library and display code.

use vstd::prelude::*;
use vstd::utf8::*;

verus! {

/// Number of bytes in the UTF-8 encoding of `c`.
pub open spec fn utf8_width(c: char) -> nat {
    encode_scalar(c as u32).len()
}

/// Number of bytes in the UTF-8 encoding of the character sequence `s`.
pub open spec fn utf8_len(s: Seq<char>) -> nat {
    encode_utf8(s).len()
}

/// Encoding a concatenation is concatenating the encodings.
pub proof fn lemma_encode_concat(a: Seq<char>, b: Seq<char>)
    ensures
        encode_utf8(a + b) == encode_utf8(a) + encode_utf8(b),
    decreases a.len(),
{
    if a.len() == 0 {
        assert(a + b =~= b);
        assert(encode_utf8(a) =~= Seq::<u8>::empty());
        assert(encode_utf8(a) + encode_utf8(b) =~= encode_utf8(b));
    } else {
        assert((a + b).drop_first() =~= a.drop_first() + b);
        lemma_encode_concat(a.drop_first(), b);
        assert((a + b)[0] == a[0]);
        assert(encode_scalar(a[0] as u32) + (encode_utf8(a.drop_first()) + encode_utf8(b))
            =~= (encode_scalar(a[0] as u32) + encode_utf8(a.drop_first())) + encode_utf8(b));
    }
}

/// The byte length of a prefix grows by the width of the next character.
pub proof fn lemma_utf8_len_take(s: Seq<char>, i: int)
    requires
        0 <= i < s.len(),
    ensures
        utf8_len(s.take(i + 1)) == utf8_len(s.take(i)) + utf8_width(s[i]),
{
    assert(s.take(i + 1) =~= s.take(i) + seq![s[i]]);
    lemma_encode_concat(s.take(i), seq![s[i]]);
    let t = seq![s[i]];
    assert(t.drop_first() =~= Seq::<char>::empty());
    assert(encode_utf8(t.drop_first()) =~= Seq::<u8>::empty());
    assert(encode_utf8(t) =~= encode_scalar(s[i] as u32));
}

/// The byte length of a sequence is the sum of the byte lengths of its parts.
pub proof fn lemma_utf8_len_concat(a: Seq<char>, b: Seq<char>)
    ensures
        utf8_len(a + b) == utf8_len(a) + utf8_len(b),
{
    lemma_encode_concat(a, b);
}

/// Number of bytes in the UTF-8 encoding of `c`.
pub fn char_width(c: char) -> (n: usize)
    ensures
        n == utf8_width(c),
        1 <= n <= 4,
{
    broadcast use vstd::utf8::char_is_scalar;
    let v = c as u32;
    proof {
        char_is_scalar(c);
    }
    if v <= 0x7F {
        1
    } else if v <= 0x7FF {
        2
    } else if v <= 0xFFFF {
        3
    } else {
        4
    }
}

/// The characters that `char::to_lowercase` yields for `c`.
pub uninterp spec fn char_lower(c: char) -> Seq<char>;

/// `c` has the Unicode White_Space property.
pub open spec fn is_white_space(c: char) -> bool {
    let v = c as u32;
    (0x09 <= v <= 0x0D) || v == 0x20 || v == 0x85 || v == 0xA0 || v == 0x1680 || (0x2000 <= v
        <= 0x200A) || v == 0x2028 || v == 0x2029 || v == 0x202F || v == 0x205F || v == 0x3000
}

/// `s` without its leading white space.
pub open spec fn trim_start(s: Seq<char>) -> Seq<char>
    decreases s.len(),
{
    if s.len() > 0 && is_white_space(s[0]) {
        trim_start(s.drop_first())
    } else {
        s
    }
}

/// `s` without its trailing white space.
pub open spec fn trim_end(s: Seq<char>) -> Seq<char>
    decreases s.len(),
{
    if s.len() > 0 && is_white_space(s.last()) {
        trim_end(s.drop_last())
    } else {
        s
    }
}

/// `s` without leading and trailing white space.
pub open spec fn trimmed(s: Seq<char>) -> Seq<char> {
    trim_end(trim_start(s))
}

/// Calls `char::to_lowercase` and collects what it yields. Trusted: the
/// result is named `char_lower` of `c`, and it holds at least one character
/// (std documents that a character without a lower-case mapping yields
/// itself). Which characters the Unicode mapping gives is left unsaid.
#[verifier::external_body]
fn char_to_lowercase(c: char) -> (r: Vec<char>)
    ensures
        r@ == char_lower(c),
        r@.len() >= 1,
{
    c.to_lowercase().collect()
}

/// The lower-case form of `c`: what `char::to_lowercase` yields. That is
/// never empty; the fallback to `c` itself makes this hold by definition.
pub open spec fn lower_of(c: char) -> Seq<char> {
    if char_lower(c).len() == 0 {
        seq![c]
    } else {
        char_lower(c)
    }
}

/// `s` lower-cased character by character: the lower-case forms of its
/// characters, in order.
pub open spec fn lower_chars(s: Seq<char>) -> Seq<char>
    decreases s.len(),
{
    if s.len() == 0 {
        Seq::empty()
    } else {
        lower_chars(s.drop_last()) + lower_of(s.last())
    }
}

/// For each character of `lower_chars(s)`, the position in `s` of the
/// character it was lowered from.
pub open spec fn lower_origins(s: Seq<char>) -> Seq<int>
    decreases s.len(),
{
    if s.len() == 0 {
        Seq::empty()
    } else {
        lower_origins(s.drop_last()) + Seq::new(lower_of(s.last()).len(), |k: int| s.len() - 1)
    }
}

/// Lowering never shortens a text, so only the empty text lowers to the
/// empty text; the origins line up with the lowered characters and name
/// positions of `s`, in order.
pub proof fn lemma_lower_shape(s: Seq<char>)
    ensures
        lower_chars(s).len() >= s.len(),
        lower_origins(s).len() == lower_chars(s).len(),
        forall|j: int| 0 <= j < lower_origins(s).len() ==> 0 <= #[trigger] lower_origins(s)[j] < s.len(),
        forall|j: int, k: int|
            0 <= j <= k < lower_origins(s).len() ==> #[trigger] lower_origins(s)[j] <= #[trigger] lower_origins(s)[k],
    decreases s.len(),
{
    if s.len() > 0 {
        lemma_lower_shape(s.drop_last());
        let o = lower_origins(s.drop_last());
        let n = lower_origins(s);
        assert forall|j: int| 0 <= j < n.len() implies 0 <= #[trigger] n[j] < s.len() by {
            if j < o.len() {
                assert(n[j] == o[j]);
            }
        }
        assert forall|j: int, k: int| 0 <= j <= k < n.len() implies #[trigger] n[j] <= #[trigger] n[k] by {
            if k < o.len() {
                assert(n[j] == o[j] && n[k] == o[k]);
            } else if j < o.len() {
                assert(n[j] == o[j]);
            }
        }
    }
}

/// `s` lower-cased character by character, and for each lowered character
/// the position in `s` of the character it comes from.
pub fn lower_with_origins(s: &Vec<char>) -> (r: (Vec<char>, Vec<usize>))
    ensures
        r.0@ == lower_chars(s@),
        r.1@.len() == r.0@.len(),
        forall|j: int| 0 <= j < r.1@.len() ==> #[trigger] r.1@[j] as int == lower_origins(s@)[j],
{
    let mut out: Vec<char> = Vec::new();
    let mut org: Vec<usize> = Vec::new();
    let mut i: usize = 0;
    assert(s@.take(0) =~= Seq::<char>::empty());
    while i < s.len()
        invariant
            i <= s@.len(),
            out@ == lower_chars(s@.take(i as int)),
            org@.len() == out@.len(),
            forall|j: int| 0 <= j < org@.len() ==> #[trigger] org@[j] as int == lower_origins(s@.take(i as int))[j],
        decreases s.len() - i,
    {
        let ghost t = s@.take(i + 1);
        assert(t.drop_last() =~= s@.take(i as int));
        assert(t.last() == s@[i as int]);
        let low = char_to_lowercase(s[i]);
        let ghost base = out@;
        let ghost base_org = lower_origins(s@.take(i as int));
        proof {
            lemma_lower_shape(s@.take(i as int));
        }
        let mut k: usize = 0;
        while k < low.len()
            invariant
                k <= low@.len(),
                low@ == lower_of(s@[i as int]),
                out@ == base + low@.take(k as int),
                org@.len() == out@.len(),
                base.len() == base_org.len(),
                i < s@.len(),
                forall|j: int| 0 <= j < base.len() ==> #[trigger] org@[j] as int == base_org[j],
                forall|j: int| base.len() <= j < org@.len() ==> #[trigger] org@[j] == i,
            decreases low.len() - k,
        {
            out.push(low[k]);
            org.push(i);
            assert(low@.take(k + 1) =~= low@.take(k as int).push(low@[k as int]));
            k += 1;
        }
        assert(low@.take(low@.len() as int) =~= low@);
        assert forall|j: int| 0 <= j < org@.len() implies #[trigger] org@[j] as int == lower_origins(t)[j] by {
            if j >= base.len() {
                assert(lower_origins(t)[j] == i);
            }
        }
        i += 1;
    }
    assert(s@.take(s@.len() as int) =~= s@);
    (out, org)
}

/// `s` lower-cased character by character.
pub fn lower_string(s: &str) -> (r: String)
    ensures
        r@ == lower_chars(s@),
{
    let cs = chars_of(s);
    let (low, _) = lower_with_origins(&cs);
    string_from_chars(&low)
}

/// Calls `str::trim`. Trusted: the result is `s` without leading and
/// trailing characters of the Unicode White_Space property, as std
/// documents it.
#[verifier::external_body]
pub(crate) fn trim(s: &str) -> (r: &str)
    ensures
        r@ == trimmed(s@),
{
    s.trim()
}

/// Calls `FromIterator<char>` for `String`. Trusted: the string holds exactly
/// the given characters, in order.
#[verifier::external_body]
pub(crate) fn string_from_chars(v: &Vec<char>) -> (s: String)
    ensures
        s@ == v@,
{
    v.iter().collect()
}

/// The characters of `s`, in order.
pub fn chars_of(s: &str) -> (v: Vec<char>)
    ensures
        v@ == s@,
{
    let mut v: Vec<char> = Vec::new();
    for c in it: s.chars()
        invariant
            v@ == it.seq().take(it.index() as int),
            it.seq() == s@,
    {
        v.push(c);
    }
    v
}

/// `a` sorts strictly before `b`: character by character by code point, a
/// proper prefix first. This is the order of `str`'s `Ord`, since UTF-8 keeps
/// code-point order byte by byte.
pub open spec fn chars_less(a: Seq<char>, b: Seq<char>) -> bool
    decreases a.len(),
{
    if a.len() == 0 {
        b.len() > 0
    } else if b.len() == 0 {
        false
    } else if a[0] != b[0] {
        (a[0] as u32) < (b[0] as u32)
    } else {
        chars_less(a.drop_first(), b.drop_first())
    }
}

/// A proper prefix sorts before the text it starts and never after it, as
/// in the order of `str`'s `Ord`; in particular the empty text sorts before
/// every other text.
pub proof fn law_prefix_sorts_first(a: Seq<char>, b: Seq<char>)
    requires
        b.len() > 0,
    ensures
        chars_less(a, a + b),
        !chars_less(a + b, a),
    decreases a.len(),
{
    if a.len() > 0 {
        assert((a + b)[0] == a[0]);
        assert((a + b).drop_first() =~= a.drop_first() + b);
        law_prefix_sorts_first(a.drop_first(), b);
    } else {
        assert(a + b =~= b);
    }
}

/// No sequence sorts before itself.
pub proof fn lemma_chars_less_irreflexive(a: Seq<char>)
    ensures
        !chars_less(a, a),
    decreases a.len(),
{
    if a.len() > 0 {
        lemma_chars_less_irreflexive(a.drop_first());
    }
}

/// Two distinct sequences are ordered one way or the other, never both.
pub proof fn lemma_chars_less_total(a: Seq<char>, b: Seq<char>)
    ensures
        a != b ==> (chars_less(a, b) || chars_less(b, a)),
        !(chars_less(a, b) && chars_less(b, a)),
    decreases a.len(),
{
    broadcast use vstd::utf8::char_u32_cast;
    if a.len() > 0 && b.len() > 0 {
        if a[0] == b[0] {
            lemma_chars_less_total(a.drop_first(), b.drop_first());
            if a != b {
                if a.drop_first() == b.drop_first() {
                    assert(a =~= seq![a[0]] + a.drop_first());
                    assert(b =~= seq![b[0]] + b.drop_first());
                }
            }
        } else {
            if (a[0] as u32) == (b[0] as u32) {
                vstd::utf8::char_u32_cast(a[0], a[0] as u32);
                vstd::utf8::char_u32_cast(b[0], b[0] as u32);
            }
        }
    } else if a.len() == 0 && b.len() == 0 {
        assert(a =~= b);
    }
}

/// The order is transitive.
pub proof fn lemma_chars_less_transitive(a: Seq<char>, b: Seq<char>, c: Seq<char>)
    requires
        chars_less(a, b),
        chars_less(b, c),
    ensures
        chars_less(a, c),
    decreases a.len(),
{
    if a.len() > 0 && b.len() > 0 && c.len() > 0 {
        if a[0] == b[0] && b[0] == c[0] {
            lemma_chars_less_transitive(a.drop_first(), b.drop_first(), c.drop_first());
        }
    }
}

/// Three-way comparison of two character sequences: negative when `a` sorts
/// first, zero when they are equal, positive when `b` sorts first.
pub fn compare_chars(a: &Vec<char>, b: &Vec<char>) -> (r: i8)
    ensures
        (r < 0) == chars_less(a@, b@),
        (r == 0) == (a@ == b@),
        (r > 0) == chars_less(b@, a@),
{
    proof {
        lemma_chars_less_total(a@, b@);
        lemma_chars_less_irreflexive(a@);
    }
    let mut i: usize = 0;
    assert(a@.skip(0) =~= a@);
    assert(b@.skip(0) =~= b@);
    while i < a.len() && i < b.len()
        invariant
            i <= a.len(),
            i <= b.len(),
            a@.take(i as int) =~= b@.take(i as int),
            chars_less(a@, b@) == chars_less(a@.skip(i as int), b@.skip(i as int)),
            chars_less(b@, a@) == chars_less(b@.skip(i as int), a@.skip(i as int)),
        decreases a.len() - i,
    {
        if a[i] != b[i] {
            proof {
                assert(a@.skip(i as int)[0] == a@[i as int]);
                assert(b@.skip(i as int)[0] == b@[i as int]);
                assert(a@[i as int] != b@[i as int]);
            }
            if (a[i] as u32) < (b[i] as u32) {
                return -1;
            } else {
                proof {
                    broadcast use vstd::utf8::char_u32_cast;
                    if (a@[i as int] as u32) == (b@[i as int] as u32) {
                        vstd::utf8::char_u32_cast(a@[i as int], a@[i as int] as u32);
                        vstd::utf8::char_u32_cast(b@[i as int], b@[i as int] as u32);
                    }
                }
                return 1;
            }
        }
        proof {
            assert(a@.skip(i as int).drop_first() =~= a@.skip(i + 1));
            assert(b@.skip(i as int).drop_first() =~= b@.skip(i + 1));
            assert(a@.take(i + 1) =~= a@.take(i as int).push(a@[i as int]));
            assert(b@.take(i + 1) =~= b@.take(i as int).push(b@[i as int]));
        }
        i += 1;
    }
    if a.len() < b.len() {
        -1
    } else if b.len() < a.len() {
        1
    } else {
        assert(a@ =~= a@.take(i as int));
        assert(b@ =~= b@.take(i as int));
        0
    }
}

/// The decimal digit for `d`, which is below ten.
pub open spec fn digit_char(d: int) -> char {
    if d == 0 {
        '0'
    } else if d == 1 {
        '1'
    } else if d == 2 {
        '2'
    } else if d == 3 {
        '3'
    } else if d == 4 {
        '4'
    } else if d == 5 {
        '5'
    } else if d == 6 {
        '6'
    } else if d == 7 {
        '7'
    } else if d == 8 {
        '8'
    } else {
        '9'
    }
}

/// `n` written in decimal, without leading zeros.
pub open spec fn decimal(n: nat) -> Seq<char>
    decreases n,
{
    if n < 10 {
        seq![digit_char(n as int)]
    } else {
        decimal(n / 10).push(digit_char((n % 10) as int))
    }
}

/// `s` padded on the left with zeros to at least two characters, as `{:02}`
/// does for a number.
pub open spec fn zero_pad2(s: Seq<char>) -> Seq<char> {
    if s.len() < 2 {
        seq!['0'] + s
    } else {
        s
    }
}

/// A decimal number has at least one digit.
pub proof fn lemma_decimal_nonempty(n: nat)
    ensures
        decimal(n).len() >= 1,
        n < 10 ==> decimal(n).len() == 1,
        n >= 10 ==> decimal(n).len() >= 2,
    decreases n,
{
    if n >= 10 {
        lemma_decimal_nonempty(n / 10);
    }
}

fn digit(d: u64) -> (c: char)
    requires
        d < 10,
    ensures
        c == digit_char(d as int),
{
    if d == 0 {
        '0'
    } else if d == 1 {
        '1'
    } else if d == 2 {
        '2'
    } else if d == 3 {
        '3'
    } else if d == 4 {
        '4'
    } else if d == 5 {
        '5'
    } else if d == 6 {
        '6'
    } else if d == 7 {
        '7'
    } else if d == 8 {
        '8'
    } else {
        '9'
    }
}

/// Appends `n` in decimal to `out`.
pub fn push_decimal(out: &mut Vec<char>, n: u64)
    ensures
        final(out)@ == old(out)@ + decimal(n as nat),
    decreases n,
{
    if n >= 10 {
        push_decimal(out, n / 10);
    }
    out.push(digit(n % 10));
    assert(decimal(n as nat) =~= if n < 10 {
        seq![digit_char(n as int)]
    } else {
        decimal((n / 10) as nat).push(digit_char((n % 10) as int))
    });
}

/// Appends `n` in decimal, padded with zeros to two digits.
pub fn push_decimal2(out: &mut Vec<char>, n: u64)
    ensures
        final(out)@ == old(out)@ + zero_pad2(decimal(n as nat)),
{
    proof {
        lemma_decimal_nonempty(n as nat);
    }
    let ghost before = out@;
    if n < 10 {
        out.push('0');
    }
    push_decimal(out, n);
    assert(out@ =~= before + zero_pad2(decimal(n as nat)));
}

/// Appends the characters of `s`.
pub fn push_str(out: &mut Vec<char>, s: &str)
    ensures
        final(out)@ == old(out)@ + s@,
{
    let ghost before = out@;
    for c in it: s.chars()
        invariant
            it.seq() == s@,
            out@ == before + it.seq().take(it.index() as int),
    {
        out.push(c);
    }
    assert(s@.take(s@.len() as int) =~= s@);
}

/// The two strings hold the same characters.
pub fn same_text(a: &str, b: &str) -> (r: bool)
    ensures
        r == (a@ == b@),
{
    let x = chars_of(a);
    let y = chars_of(b);
    compare_chars(&x, &y) == 0
}

} // verus!
