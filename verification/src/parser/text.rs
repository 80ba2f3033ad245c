//! Text handling shared by the readers: the characters of a string, lines, white
//! space, words and decimal numbers.
use vstd::prelude::*;

verus! {

/// The characters of `s`, in order.
pub fn chars_of(s: &str) -> (v: Vec<char>)
    ensures
        v@ == s@,
{
    let mut v: Vec<char> = Vec::new();
    for c in it: s.chars()
        invariant
            v@ == it.seq().take(it.index() as int),
            it.seq() == s@,
    {
        v.push(c);
    }
    v
}

/// Appends `c` to `s` (`String::push`).
#[verifier::external_body]
pub(crate) fn push_char(s: &mut String, c: char)
    ensures
        final(s)@ == old(s)@.push(c),
{
    s.push(c);
}

/// The string made of the characters of `chars`.
pub fn string_of(chars: &[char]) -> (s: String)
    ensures
        s@ == chars@,
{
    let mut s = String::new();
    let mut k: usize = 0;
    while k < chars.len()
        invariant
            k <= chars@.len(),
            s@ == chars@.take(k as int),
        decreases chars@.len() - k,
    {
        push_char(&mut s, chars[k]);
        assert(chars@.take(k + 1) =~= chars@.take(k as int).push(chars@[k as int]));
        k = k + 1;
    }
    assert(chars@.take(k as int) =~= chars@);
    s
}

/// The character sequences of `v`.
pub open spec fn char_views(v: Seq<Vec<char>>) -> Seq<Seq<char>> {
    v.map_values(|t: Vec<char>| t@)
}

/// Unicode white space (the `White_Space` property).
pub open spec fn is_white(c: char) -> bool {
    let u = c as u32;
    ||| 0x09 <= u <= 0x0D
    ||| u == 0x20
    ||| u == 0x85
    ||| u == 0xA0
    ||| u == 0x1680
    ||| 0x2000 <= u <= 0x200A
    ||| u == 0x2028
    ||| u == 0x2029
    ||| u == 0x202F
    ||| u == 0x205F
    ||| u == 0x3000
}

/// Whether `c` is white space.
pub fn white(c: char) -> (b: bool)
    ensures
        b == is_white(c),
{
    let u = c as u32;
    (0x09 <= u && u <= 0x0D) || u == 0x20 || u == 0x85 || u == 0xA0 || u == 0x1680
        || (0x2000 <= u && u <= 0x200A) || u == 0x2028 || u == 0x2029 || u == 0x202F
        || u == 0x205F || u == 0x3000
}

/// The lines of `s`: the pieces between line feeds (an input without line feeds is one
/// line; one that ends with a line feed ends with an empty line).
pub open spec fn lines(s: Seq<char>) -> Seq<Seq<char>>
    decreases s.len(),
{
    if s.len() == 0 {
        seq![Seq::<char>::empty()]
    } else {
        let r = lines(s.drop_last());
        if s.last() == '\n' {
            r.push(Seq::<char>::empty())
        } else {
            r.update(r.len() - 1, r.last().push(s.last()))
        }
    }
}

/// There is always at least one line.
pub proof fn lemma_lines_nonempty(s: Seq<char>)
    ensures
        lines(s).len() >= 1,
    decreases s.len(),
{
    if s.len() > 0 {
        lemma_lines_nonempty(s.drop_last());
    }
}

/// The lines of `s`.
pub fn split_lines(s: &Vec<char>) -> (r: Vec<Vec<char>>)
    ensures
        r@.len() == lines(s@).len(),
        forall|i: int| 0 <= i < r@.len() ==> (#[trigger] r@[i])@ == lines(s@)[i],
{
    let mut done: Vec<Vec<char>> = Vec::new();
    let mut cur: Vec<char> = Vec::new();
    let mut k: usize = 0;
    proof {
        assert(s@.take(0) =~= Seq::<char>::empty());
    }
    while k < s.len()
        invariant
            k <= s@.len(),
            done@.len() + 1 == lines(s@.take(k as int)).len(),
            forall|i: int| 0 <= i < done@.len() ==> (#[trigger] done@[i])@ == lines(s@.take(k as int))[i],
            cur@ == lines(s@.take(k as int)).last(),
        decreases s@.len() - k,
    {
        let c = s[k];
        let ghost before = s@.take(k as int);
        proof {
            assert(s@.take(k + 1).drop_last() =~= before);
            lemma_lines_nonempty(before);
        }
        if c == '\n' {
            done.push(cur);
            cur = Vec::new();
        } else {
            cur.push(c);
        }
        k = k + 1;
        proof {
            let now = s@.take(k as int);
            assert(now.last() == c);
            assert forall|i: int| 0 <= i < done@.len() implies (#[trigger] done@[i])@ == lines(now)[i] by {
                if i < done@.len() - 1 || c != '\n' {
                    assert(done@[i]@ == lines(before)[i]);
                }
            }
        }
    }
    proof {
        assert(s@.take(k as int) =~= s@);
    }
    done.push(cur);
    done
}

/// The words of `s`: its maximal runs of characters other than white space.
pub open spec fn words(s: Seq<char>) -> Seq<Seq<char>>
    decreases s.len(),
{
    if s.len() == 0 {
        Seq::empty()
    } else {
        let w = words(s.drop_last());
        let c = s.last();
        if is_white(c) {
            w
        } else if s.len() >= 2 && !is_white(s[s.len() - 2]) {
            w.update(w.len() - 1, w.last().push(c))
        } else {
            w.push(seq![c])
        }
    }
}

/// A text that ends in a character other than white space has a word, and its last
/// word is not empty.
pub proof fn lemma_words_last(s: Seq<char>)
    requires
        s.len() > 0,
        !is_white(s.last()),
    ensures
        words(s).len() >= 1,
    decreases s.len(),
{
    if s.len() >= 2 && !is_white(s[s.len() - 2]) {
        lemma_words_last(s.drop_last());
    }
}

/// Every word is non-empty and holds no white space.
pub proof fn lemma_words_shape(s: Seq<char>)
    ensures
        forall|i: int| 0 <= i < words(s).len() ==> (#[trigger] words(s)[i]).len() > 0,
        forall|i: int, j: int| 0 <= i < words(s).len() && 0 <= j < words(s)[i].len() ==> !is_white(#[trigger] words(s)[i][j]),
    decreases s.len(),
{
    if s.len() > 0 {
        lemma_words_shape(s.drop_last());
        if !is_white(s.last()) && s.len() >= 2 && !is_white(s[s.len() - 2]) {
            lemma_words_last(s.drop_last());
        }
    }
}

/// The words of `s`.
pub fn split_words(s: &[char]) -> (r: Vec<Vec<char>>)
    ensures
        r@.len() == words(s@).len(),
        forall|i: int| 0 <= i < r@.len() ==> (#[trigger] r@[i])@ == words(s@)[i],
{
    let mut done: Vec<Vec<char>> = Vec::new();
    let mut cur: Vec<char> = Vec::new();
    let mut in_word = false;
    let mut k: usize = 0;
    proof {
        assert(s@.take(0) =~= Seq::<char>::empty());
    }
    while k < s.len()
        invariant
            k <= s@.len(),
            in_word == (k > 0 && !is_white(s@[k - 1])),
            done@.len() + (if in_word { 1int } else { 0int }) == words(s@.take(k as int)).len(),
            forall|i: int| 0 <= i < done@.len() ==> (#[trigger] done@[i])@ == words(s@.take(k as int))[i],
            in_word ==> cur@ == words(s@.take(k as int)).last(),
        decreases s@.len() - k,
    {
        let c = s[k];
        let ghost before = s@.take(k as int);
        proof {
            assert(s@.take(k + 1).drop_last() =~= before);
            if in_word {
                assert(before.last() == s@[k - 1]);
                lemma_words_last(before);
            }
        }
        if white(c) {
            if in_word {
                done.push(cur);
                cur = Vec::new();
            }
            in_word = false;
        } else {
            if in_word {
                cur.push(c);
            } else {
                cur = Vec::new();
                cur.push(c);
                in_word = true;
            }
        }
        k = k + 1;
        proof {
            let now = s@.take(k as int);
            assert(now.last() == c);
            assert(now.len() >= 2 ==> now[now.len() - 2] == s@[k - 2]);
            assert forall|i: int| 0 <= i < done@.len() implies (#[trigger] done@[i])@ == words(now)[i] by {
                assert(done@[i]@ == words(before)[i]);
            }
        }
    }
    proof {
        assert(s@.take(k as int) =~= s@);
    }
    if in_word {
        done.push(cur);
    }
    done
}

/// `s` without its leading white space.
pub open spec fn trim_start(s: Seq<char>) -> Seq<char>
    decreases s.len(),
{
    if s.len() > 0 && is_white(s[0]) { trim_start(s.drop_first()) } else { s }
}

/// `s` without its trailing white space.
pub open spec fn trim_end(s: Seq<char>) -> Seq<char>
    decreases s.len(),
{
    if s.len() > 0 && is_white(s.last()) { trim_end(s.drop_last()) } else { s }
}

/// `s` without leading and trailing white space.
pub open spec fn trim(s: Seq<char>) -> Seq<char> {
    trim_end(trim_start(s))
}

/// `s` without leading and trailing white space.
pub fn trimmed(s: &[char]) -> (r: Vec<char>)
    ensures
        r@ == trim(s@),
{
    let n = s.len();
    let mut a: usize = 0;
    assert(s@.subrange(0, n as int) =~= s@);
    while a < n && white(s[a])
        invariant
            a <= n == s@.len(),
            trim_start(s@.subrange(a as int, n as int)) == trim_start(s@),
        decreases n - a,
    {
        assert(s@.subrange(a as int, n as int).drop_first() =~= s@.subrange(a + 1, n as int));
        a = a + 1;
    }
    let mut b: usize = n;
    while b > a && white(s[b - 1])
        invariant
            a <= b <= n == s@.len(),
            trim_start(s@) == s@.subrange(a as int, n as int),
            trim_end(s@.subrange(a as int, b as int)) == trim(s@),
        decreases b,
    {
        assert(s@.subrange(a as int, b as int).drop_last() =~= s@.subrange(a as int, b - 1));
        b = b - 1;
    }
    let mut r: Vec<char> = Vec::new();
    let mut k: usize = a;
    while k < b
        invariant
            a <= k <= b <= n == s@.len(),
            r@ == s@.subrange(a as int, k as int),
        decreases b - k,
    {
        r.push(s[k]);
        assert(s@.subrange(a as int, k + 1) =~= s@.subrange(a as int, k as int).push(s@[k as int]));
        k = k + 1;
    }
    r
}

/// Trimming leaves no white space at the start.
pub proof fn lemma_trim_start_first(s: Seq<char>)
    ensures
        trim_start(s).len() > 0 ==> !is_white(trim_start(s)[0]),
        trim_start(s).len() <= s.len(),
    decreases s.len(),
{
    if s.len() > 0 && is_white(s[0]) {
        lemma_trim_start_first(s.drop_first());
    }
}

/// Trimming the end keeps a prefix.
pub proof fn lemma_trim_end_prefix(s: Seq<char>)
    ensures
        trim_end(s).len() <= s.len(),
        trim_end(s) == s.take(trim_end(s).len() as int),
    decreases s.len(),
{
    if s.len() > 0 && is_white(s.last()) {
        lemma_trim_end_prefix(s.drop_last());
        assert(s.drop_last().take(trim_end(s).len() as int) =~= s.take(trim_end(s).len() as int));
    } else {
        assert(s.take(s.len() as int) =~= s);
    }
}

/// A trimmed text that is not empty starts with a character other than white space.
pub proof fn lemma_trim_first(s: Seq<char>)
    ensures
        trim(s).len() > 0 ==> !is_white(trim(s)[0]),
{
    lemma_trim_start_first(s);
    lemma_trim_end_prefix(trim_start(s));
    if trim(s).len() > 0 {
        assert(trim(s)[0] == trim_start(s)[0]);
    }
}

/// Whether `c` is an ASCII decimal digit.
pub open spec fn is_digit(c: char) -> bool {
    '0' <= c <= '9'
}

/// The value of the decimal digits `s`.
pub open spec fn digits_value(s: Seq<char>) -> nat
    decreases s.len(),
{
    if s.len() == 0 {
        0
    } else {
        digits_value(s.drop_last()) * 10 + ((s.last() as u32) - 48) as nat
    }
}

/// `s` is a non-empty run of decimal digits.
pub open spec fn all_digits(s: Seq<char>) -> bool {
    s.len() > 0 && forall|i: int| 0 <= i < s.len() ==> is_digit(#[trigger] s[i])
}

/// The integer that `s` writes: an optional sign (`+`, or `-` where `signed`) followed
/// by decimal digits.
pub open spec fn spec_parse_int(s: Seq<char>, signed: bool) -> Option<int> {
    if s.len() > 0 && (s[0] == '+' || (signed && s[0] == '-')) {
        if all_digits(s.drop_first()) {
            Some(if s[0] == '-' { -(digits_value(s.drop_first()) as int) } else { digits_value(s.drop_first()) as int })
        } else {
            None
        }
    } else if all_digits(s) {
        Some(digits_value(s) as int)
    } else {
        None
    }
}

/// `s` writes an integer in `lo..=hi`.
pub open spec fn int_in(s: Seq<char>, signed: bool, lo: int, hi: int) -> Option<int> {
    match spec_parse_int(s, signed) {
        Some(v) => if lo <= v <= hi { Some(v) } else { None },
        None => None,
    }
}

/// A longer run of digits has at least the value of its prefix.
pub proof fn lemma_digits_prefix(s: Seq<char>, k: int)
    requires
        0 <= k <= s.len(),
    ensures
        digits_value(s.take(k)) <= digits_value(s),
    decreases s.len(),
{
    if k < s.len() {
        assert(s.drop_last().take(k) =~= s.take(k));
        lemma_digits_prefix(s.drop_last(), k);
    } else {
        assert(s.take(k) =~= s);
    }
}

/// The value of the digits `s[start..]` when they are all digits, there is at least one,
/// and the value is at most `limit`.
fn digits_upto(s: &[char], start: usize, limit: u64) -> (r: Option<u64>)
    requires
        start <= s@.len(),
    ensures
        r matches Some(v) ==> all_digits(s@.skip(start as int)) && v == digits_value(s@.skip(start as int)) && v <= limit,
        r is None ==> !all_digits(s@.skip(start as int)) || digits_value(s@.skip(start as int)) > limit,
{
    let n = s.len();
    let ghost d = s@.skip(start as int);
    if start == n {
        return None;
    }
    let mut v: u128 = 0;
    let mut k: usize = start;
    while k < n
        invariant
            start <= k <= n == s@.len(),
            d == s@.skip(start as int),
            forall|i: int| 0 <= i < k - start ==> is_digit(#[trigger] d[i]),
            v == digits_value(d.take(k - start)),
            v <= limit,
        decreases n - k,
    {
        let c = s[k];
        if !('0' <= c && c <= '9') {
            assert(d[k - start] == c);
            return None;
        }
        let digit = (c as u32 - 48) as u128;
        assert(d.take(k + 1 - start).drop_last() =~= d.take(k - start));
        assert(d.take(k + 1 - start).last() == c);
        v = v * 10 + digit;
        k = k + 1;
        if v > limit as u128 {
            proof {
                if all_digits(d) {
                    lemma_digits_prefix(d, k - start);
                }
            }
            return None;
        }
    }
    assert(d.take(k - start) =~= d);
    Some(v as u64)
}

/// The integer that `s` writes, with an optional sign (`-` only where `signed`), when it
/// lies in `-neg_limit..=pos_limit`.
pub fn parse_int(s: &[char], signed: bool, neg_limit: u64, pos_limit: u64) -> (r: Option<i128>)
    ensures
        r matches Some(v) ==> int_in(s@, signed, -(neg_limit as int), pos_limit as int) == Some(v as int),
        r is None ==> int_in(s@, signed, -(neg_limit as int), pos_limit as int) is None,
{
    if s.len() > 0 && (s[0] == '+' || (signed && s[0] == '-')) {
        proof {
            assert(s@.skip(1) =~= s@.drop_first());
        }
        if s[0] == '-' {
            match digits_upto(s, 1, neg_limit) {
                Some(v) => Some(-(v as i128)),
                None => None,
            }
        } else {
            match digits_upto(s, 1, pos_limit) {
                Some(v) => Some(v as i128),
                None => None,
            }
        }
    } else {
        proof {
            assert(s@.skip(0) =~= s@);
            if s@.len() > 0 {
                assert(!is_digit('+') && !is_digit('-'));
                if s@[0] == '-' {
                    assert(!all_digits(s@));
                }
            }
        }
        match digits_upto(s, 0, pos_limit) {
            Some(v) => Some(v as i128),
            None => None,
        }
    }
}

/// The 32-bit integers that the tokens `toks` write, skipping those that write none,
/// up to the first 0.
pub open spec fn lenient_ints(toks: Seq<Seq<char>>) -> Seq<i32>
    decreases toks.len(),
{
    if toks.len() == 0 {
        Seq::empty()
    } else {
        match int_in(toks[0], true, -0x8000_0000, 0x7fff_ffff) {
            None => lenient_ints(toks.drop_first()),
            Some(v) => if v == 0 { Seq::empty() } else { seq![v as i32] + lenient_ints(toks.drop_first()) },
        }
    }
}

/// The 32-bit integers that the tokens `toks` from position `k` write, skipping those
/// that write none, up to the first 0.
pub fn read_lenient_ints(toks: &Vec<Vec<char>>, k: usize) -> (r: Vec<i32>)
    requires
        k <= toks@.len(),
    ensures
        r@ == lenient_ints(char_views(toks@).skip(k as int)),
{
    let ghost all = char_views(toks@);
    let mut out: Vec<i32> = Vec::new();
    let mut i: usize = k;
    assert(Seq::<i32>::empty() + lenient_ints(all.skip(k as int)) =~= lenient_ints(all.skip(k as int)));
    while i < toks.len()
        invariant
            k <= i <= toks@.len(),
            all == char_views(toks@),
            all.len() == toks@.len(),
            lenient_ints(all.skip(k as int)) == out@ + lenient_ints(all.skip(i as int)),
        decreases toks@.len() - i,
    {
        assert(all.skip(i as int)[0] == toks@[i as int]@);
        assert(all.skip(i as int).drop_first() =~= all.skip(i + 1));
        match parse_int(toks[i].as_slice(), true, 0x8000_0000, 0x7fff_ffff) {
            None => {},
            Some(v) => {
                if v == 0 {
                    assert(out@ + Seq::<i32>::empty() =~= out@);
                    return out;
                }
                let ghost before = out@;
                out.push(v as i32);
                assert(before + (seq![v as i32] + lenient_ints(all.skip(i + 1))) =~= out@ + lenient_ints(all.skip(i + 1)));
            },
        }
        i = i + 1;
    }
    assert(all.skip(i as int).len() == 0);
    assert(out@ + Seq::<i32>::empty() =~= out@);
    out
}

/// The digit character of `d` (below 10).
pub open spec fn digit_char(d: nat) -> char {
    ('0' as int + d) as char
}

/// The decimal digits of `n`, without leading zeros (`"0"` for zero).
pub open spec fn decimal(n: nat) -> Seq<char>
    decreases n,
{
    if n < 10 {
        seq![digit_char(n)]
    } else {
        decimal(n / 10).push(digit_char(n % 10))
    }
}

/// The decimal text of `i`, with a minus sign when it is negative.
pub open spec fn signed_decimal(i: int) -> Seq<char> {
    if i < 0 {
        seq!['-'] + decimal((-i) as nat)
    } else {
        decimal(i as nat)
    }
}

/// Append the decimal digits of `n` to `s`.
pub fn push_decimal(s: &mut String, n: u32)
    ensures
        final(s)@ == old(s)@ + decimal(n as nat),
    decreases n,
{
    if n >= 10 {
        push_decimal(s, n / 10);
    }
    let d = (n % 10) as u8;
    let c = (48u8 + d) as char;
    assert(c == digit_char((n % 10) as nat));
    push_char(s, c);
    proof {
        if n >= 10 {
            assert(old(s)@ + decimal(n as nat) =~= old(s)@ + decimal((n / 10) as nat) + seq![c]);
        } else {
            assert(old(s)@ + decimal(n as nat) =~= old(s)@.push(c));
        }
    }
}

/// Append the decimal text of `i` to `s`.
pub fn push_signed_decimal(s: &mut String, i: i32)
    ensures
        final(s)@ == old(s)@ + signed_decimal(i as int),
{
    if i < 0 {
        push_char(s, '-');
        let m: u32 = if i == i32::MIN { 0x8000_0000u32 } else { (-i) as u32 };
        push_decimal(s, m);
        assert(old(s)@ + signed_decimal(i as int) =~= old(s)@.push('-') + decimal(m as nat));
    } else {
        push_decimal(s, i as u32);
    }
}

} // verus!
