//! Byte-level scanning shared by the mesh and material parsers: lines,
//! whitespace-separated words, and the syntax of numeric fields.
use vstd::prelude::*;

verus! {

/// ASCII whitespace: space, tab, line feed, vertical tab, form feed and
/// carriage return.
pub open spec fn is_space(b: u8) -> bool {
    b == 0x20u8 || (0x09u8 <= b && b <= 0x0du8)
}

pub open spec fn is_digit(b: u8) -> bool {
    0x30u8 <= b && b <= 0x39u8
}

/// The first index at or after `i` that holds a line feed, or the length.
pub open spec fn line_end(s: Seq<u8>, i: int) -> int
    decreases s.len() - i,
{
    if i < 0 || i >= s.len() || s[i] == 0x0au8 {
        if i < 0 { 0 } else if i > s.len() { s.len() as int } else { i }
    } else {
        line_end(s, i + 1)
    }
}

/// The first index at or after `i` that is not whitespace, or the length.
pub open spec fn skip_space(s: Seq<u8>, i: int) -> int
    decreases s.len() - i,
{
    if i < 0 || i >= s.len() || !is_space(s[i]) {
        if i < 0 { 0 } else if i > s.len() { s.len() as int } else { i }
    } else {
        skip_space(s, i + 1)
    }
}

/// The first index at or after `i` that is whitespace, or the length.
pub open spec fn skip_word(s: Seq<u8>, i: int) -> int
    decreases s.len() - i,
{
    if i < 0 || i >= s.len() || is_space(s[i]) {
        if i < 0 { 0 } else if i > s.len() { s.len() as int } else { i }
    } else {
        skip_word(s, i + 1)
    }
}

/// The first index at or after `i` that holds `b`, or the length.
pub open spec fn find_byte(s: Seq<u8>, b: u8, i: int) -> int
    decreases s.len() - i,
{
    if i < 0 || i >= s.len() || s[i] == b {
        if i < 0 { 0 } else if i > s.len() { s.len() as int } else { i }
    } else {
        find_byte(s, b, i + 1)
    }
}

pub proof fn lemma_line_end(s: Seq<u8>, i: int)
    requires
        0 <= i <= s.len(),
    ensures
        i <= line_end(s, i) <= s.len(),
        line_end(s, i) < s.len() ==> s[line_end(s, i)] == 0x0au8,
    decreases s.len() - i,
{
    if i < s.len() && s[i] != 0x0au8 {
        lemma_line_end(s, i + 1);
    }
}

pub proof fn lemma_skip_space(s: Seq<u8>, i: int)
    requires
        0 <= i <= s.len(),
    ensures
        i <= skip_space(s, i) <= s.len(),
        skip_space(s, i) < s.len() ==> !is_space(s[skip_space(s, i)]),
    decreases s.len() - i,
{
    if i < s.len() && is_space(s[i]) {
        lemma_skip_space(s, i + 1);
    }
}

pub proof fn lemma_skip_word(s: Seq<u8>, i: int)
    requires
        0 <= i <= s.len(),
    ensures
        i <= skip_word(s, i) <= s.len(),
    decreases s.len() - i,
{
    if i < s.len() && !is_space(s[i]) {
        lemma_skip_word(s, i + 1);
    }
}

pub proof fn lemma_find_byte(s: Seq<u8>, b: u8, i: int)
    requires
        0 <= i <= s.len(),
    ensures
        i <= find_byte(s, b, i) <= s.len(),
    decreases s.len() - i,
{
    if i < s.len() && s[i] != b {
        lemma_find_byte(s, b, i + 1);
    }
}

/// The words of `s` from index `i` on: maximal runs of non-whitespace bytes.
pub open spec fn words_from(s: Seq<u8>, i: int) -> Seq<Seq<u8>>
    decreases s.len() - i,
{
    let a = skip_space(s, i);
    let b = skip_word(s, a);
    if i < 0 || i > s.len() || a >= s.len() || b <= i || b > s.len() {
        Seq::empty()
    } else {
        seq![s.subrange(a, b)] + words_from(s, b)
    }
}

/// The whitespace-separated words of a line.
pub open spec fn words(s: Seq<u8>) -> Seq<Seq<u8>> {
    words_from(s, 0)
}

/// `s` without leading and trailing whitespace.
pub open spec fn trim(s: Seq<u8>) -> Seq<u8> {
    let a = skip_space(s, 0);
    let e = trim_end(s, s.len() as int);
    if a < e {
        s.subrange(a, e)
    } else {
        Seq::empty()
    }
}

/// The end of `s.subrange(0, e)` once trailing whitespace is dropped.
pub open spec fn trim_end(s: Seq<u8>, e: int) -> int
    decreases e,
{
    if e <= 0 || e > s.len() {
        0
    } else if is_space(s[e - 1]) {
        trim_end(s, e - 1)
    } else {
        e
    }
}

/// What follows the first word of a line, without surrounding whitespace.
pub open spec fn rest_after_first(s: Seq<u8>) -> Seq<u8> {
    trim(s.subrange(skip_word(s, skip_space(s, 0)), s.len() as int))
}

/// The words joined with single spaces.
pub open spec fn join_words(ws: Seq<Seq<u8>>) -> Seq<u8>
    decreases ws.len(),
{
    if ws.len() == 0 {
        Seq::empty()
    } else if ws.len() == 1 {
        ws[0]
    } else {
        join_words(ws.drop_last()) + seq![0x20u8] + ws.last()
    }
}

/// The value of a run of decimal digits.
pub open spec fn digits_value(s: Seq<u8>) -> int
    decreases s.len(),
{
    if s.len() == 0 {
        0
    } else {
        digits_value(s.drop_last()) * 10 + (s.last() - 0x30u8)
    }
}

pub open spec fn all_digits(s: Seq<u8>) -> bool {
    forall|i: int| 0 <= i < s.len() ==> is_digit(#[trigger] s[i])
}

/// A signed decimal integer as `isize` reads it: an optional `+` or `-`
/// followed by at least one digit, whose value fits in `isize`.
pub open spec fn parse_int(s: Seq<u8>) -> Option<int> {
    let neg = s.len() > 0 && s[0] == 0x2du8;
    let d = digits_part(s);
    let v = if neg { -digits_value(d) } else { digits_value(d) };
    if d.len() > 0 && all_digits(d) && isize::MIN <= v <= isize::MAX {
        Some(v)
    } else {
        None
    }
}

/// `s` without its leading `+` or `-`, if it has one.
pub open spec fn digits_part(s: Seq<u8>) -> Seq<u8> {
    if s.len() > 0 && (s[0] == 0x2du8 || s[0] == 0x2bu8) {
        s.subrange(1, s.len() as int)
    } else {
        s
    }
}

pub open spec fn lower(b: u8) -> u8 {
    if 0x41u8 <= b && b <= 0x5au8 {
        (b + 0x20u8) as u8
    } else {
        b
    }
}

/// The end of the run of digits that starts at `i`.
pub open spec fn digits_end(s: Seq<u8>, i: int) -> int
    decreases s.len() - i,
{
    if i < 0 || i >= s.len() || !is_digit(s[i]) {
        if i < 0 { 0 } else if i > s.len() { s.len() as int } else { i }
    } else {
        digits_end(s, i + 1)
    }
}

pub proof fn lemma_digits_end(s: Seq<u8>, i: int)
    requires
        0 <= i <= s.len(),
    ensures
        i <= digits_end(s, i) <= s.len(),
        forall|k: int| i <= k < digits_end(s, i) ==> is_digit(#[trigger] s[k]),
        digits_end(s, i) < s.len() ==> !is_digit(s[digits_end(s, i)]),
    decreases s.len() - i,
{
    if i < s.len() && is_digit(s[i]) {
        lemma_digits_end(s, i + 1);
    }
}

/// Whether `s` from `i` on spells `word` in any letter case.
pub open spec fn is_word_ci(s: Seq<u8>, i: int, word: Seq<u8>) -> bool {
    s.len() - i == word.len() && forall|k: int| 0 <= k < word.len() ==> lower(#[trigger] s[i + k]) == word[k]
}

/// Whether `s` is a decimal floating-point number in the syntax that Rust's
/// `f32::from_str` accepts: an optional sign, then `inf`, `infinity` or `nan`
/// in any case, or digits with at most one `.` and at least one digit,
/// optionally followed by `e` or `E`, an optional sign and at least one digit.
pub open spec fn is_number_text(s: Seq<u8>) -> bool {
    let i = if s.len() > 0 && (s[0] == 0x2du8 || s[0] == 0x2bu8) { 1int } else { 0int };
    is_word_ci(s, i, seq![0x69u8, 0x6eu8, 0x66u8]) || is_word_ci(
        s,
        i,
        seq![0x69u8, 0x6eu8, 0x66u8, 0x69u8, 0x6eu8, 0x69u8, 0x74u8, 0x79u8],
    ) || is_word_ci(s, i, seq![0x6eu8, 0x61u8, 0x6eu8]) || is_decimal_text(s, i)
}

/// Digits, an optional fraction and an optional exponent, from `i` to the end.
pub open spec fn is_decimal_text(s: Seq<u8>, i: int) -> bool {
    let a = digits_end(s, i);
    let has_dot = a < s.len() && s[a] == 0x2eu8;
    let b = if has_dot { digits_end(s, a + 1) } else { a };
    let n_digits = if has_dot { (a - i) + (b - a - 1) } else { a - i };
    let e_sign = if b + 1 < s.len() && (s[b + 1] == 0x2du8 || s[b + 1] == 0x2bu8) { b + 2 } else { b + 1 };
    &&& n_digits > 0
    &&& (b == s.len() || ((s[b] == 0x65u8 || s[b] == 0x45u8) && digits_end(s, e_sign) == s.len()
        && e_sign < s.len()))
}

/// The contents of a sequence of byte vectors.
pub open spec fn seqs_of(v: Seq<Vec<u8>>) -> Seq<Seq<u8>> {
    v.map_values(|w: Vec<u8>| w@)
}

/// The index of the line feed that ends the line starting at `i`, or the
/// length.
pub fn next_line_end(s: &[u8], i: usize) -> (r: usize)
    requires
        i <= s@.len(),
    ensures
        r == line_end(s@, i as int),
{
    let mut k = i;
    while k < s.len() && s[k] != 0x0a
        invariant
            i <= k <= s@.len(),
            line_end(s@, k as int) == line_end(s@, i as int),
        decreases s@.len() - k,
    {
        k = k + 1;
    }
    k
}

fn skip_spaces(s: &[u8], i: usize) -> (r: usize)
    requires
        i <= s@.len(),
    ensures
        r == skip_space(s@, i as int),
{
    let mut k = i;
    while k < s.len() && is_space_byte(s[k])
        invariant
            i <= k <= s@.len(),
            skip_space(s@, k as int) == skip_space(s@, i as int),
        decreases s@.len() - k,
    {
        k = k + 1;
    }
    k
}

fn skip_non_space(s: &[u8], i: usize) -> (r: usize)
    requires
        i <= s@.len(),
    ensures
        r == skip_word(s@, i as int),
{
    let mut k = i;
    while k < s.len() && !is_space_byte(s[k])
        invariant
            i <= k <= s@.len(),
            skip_word(s@, k as int) == skip_word(s@, i as int),
        decreases s@.len() - k,
    {
        k = k + 1;
    }
    k
}

/// The index of the first `b` at or after `i`, or the length.
pub fn find_from(s: &[u8], b: u8, i: usize) -> (r: usize)
    requires
        i <= s@.len(),
    ensures
        r == find_byte(s@, b, i as int),
{
    let mut k = i;
    while k < s.len() && s[k] != b
        invariant
            i <= k <= s@.len(),
            find_byte(s@, b, k as int) == find_byte(s@, b, i as int),
        decreases s@.len() - k,
    {
        k = k + 1;
    }
    k
}

pub fn is_space_byte(b: u8) -> (r: bool)
    ensures
        r == is_space(b),
{
    b == 0x20 || (0x09 <= b && b <= 0x0d)
}

/// A copy of `s[from..to]`.
pub fn copy_range(s: &[u8], from: usize, to: usize) -> (r: Vec<u8>)
    requires
        from <= to <= s@.len(),
    ensures
        r@ == s@.subrange(from as int, to as int),
{
    let mut r: Vec<u8> = Vec::new();
    let mut k = from;
    while k < to
        invariant
            from <= k <= to <= s@.len(),
            r@ == s@.subrange(from as int, k as int),
        decreases to - k,
    {
        r.push(s[k]);
        k = k + 1;
        assert(r@ =~= s@.subrange(from as int, k as int));
    }
    r
}

/// The whitespace-separated words of `s`.
pub fn split_words(s: &[u8]) -> (r: Vec<Vec<u8>>)
    ensures
        seqs_of(r@) == words(s@),
{
    let mut r: Vec<Vec<u8>> = Vec::new();
    let mut i: usize = 0;
    while i < s.len()
        invariant
            i <= s@.len(),
            seqs_of(r@) + words_from(s@, i as int) == words(s@),
        decreases s@.len() - i,
    {
        let a = skip_spaces(s, i);
        proof {
            lemma_skip_space(s@, i as int);
        }
        if a >= s.len() {
            assert(words_from(s@, i as int) == Seq::<Seq<u8>>::empty());
            assert(seqs_of(r@) =~= seqs_of(r@) + words_from(s@, i as int));
            return r;
        }
        let b = skip_non_space(s, a);
        proof {
            lemma_skip_word(s@, a as int);
            assert(skip_word(s@, a as int) == skip_word(s@, a as int + 1));
            lemma_skip_word(s@, a as int + 1);
        }
        let ghost old_r = seqs_of(r@);
        let w = copy_range(s, a, b);
        r.push(w);
        proof {
            assert(seqs_of(r@) =~= old_r.push(s@.subrange(a as int, b as int)));
            assert(words_from(s@, i as int) == seq![s@.subrange(a as int, b as int)] + words_from(s@, b as int));
            assert(seqs_of(r@) + words_from(s@, b as int) =~= old_r + words_from(s@, i as int));
        }
        i = b;
    }
    assert(words_from(s@, i as int) == Seq::<Seq<u8>>::empty());
    assert(seqs_of(r@) =~= seqs_of(r@) + words_from(s@, i as int));
    r
}

/// Whether two byte strings are equal.
pub fn bytes_eq(a: &[u8], b: &[u8]) -> (r: bool)
    ensures
        r == (a@ == b@),
{
    if a.len() != b.len() {
        return false;
    }
    let mut k: usize = 0;
    while k < a.len()
        invariant
            a@.len() == b@.len(),
            k <= a@.len(),
            forall|j: int| 0 <= j < k ==> a@[j] == b@[j],
        decreases a@.len() - k,
    {
        if a[k] != b[k] {
            return false;
        }
        k = k + 1;
    }
    assert(a@ =~= b@);
    true
}

proof fn lemma_digits_value_step(s: Seq<u8>, a: int, k: int)
    requires
        0 <= a <= k < s.len(),
    ensures
        digits_value(s.subrange(a, k + 1)) == digits_value(s.subrange(a, k)) * 10 + (s[k] - 0x30u8),
{
    assert(s.subrange(a, k + 1).drop_last() =~= s.subrange(a, k));
}

proof fn lemma_digits_value_nonneg(s: Seq<u8>)
    requires
        all_digits(s),
    ensures
        digits_value(s) >= 0,
    decreases s.len(),
{
    if s.len() > 0 {
        assert(all_digits(s.drop_last()));
        lemma_digits_value_nonneg(s.drop_last());
    }
}

/// A saturation bound above the magnitude of every `isize`.
const SATURATION: i128 = 0x1_0000_0000_0000_0000;

/// Reads a signed decimal integer, as `isize`'s `from_str` does.
pub fn parse_isize(s: &[u8]) -> (r: Option<isize>)
    ensures
        r.is_some() == parse_int(s@).is_some(),
        r.is_some() ==> r.unwrap() as int == parse_int(s@).unwrap(),
{
    let n = s.len();
    if n == 0 {
        return None;
    }
    let neg = s[0] == 0x2d;
    let start: usize = if s[0] == 0x2d || s[0] == 0x2b { 1 } else { 0 };
    let ghost d = s@.subrange(start as int, n as int);
    if start >= n {
        return None;
    }
    let mut acc: i128 = 0;
    let mut k = start;
    while k < n
        invariant
            n == s@.len(),
            n > 0,
            start == (if s@[0] == 0x2du8 || s@[0] == 0x2bu8 { 1int } else { 0int }),
            d == s@.subrange(start as int, n as int),
            start <= k <= n,
            forall|j: int| start <= j < k ==> is_digit(#[trigger] s@[j]),
            0 <= acc <= SATURATION,
            digits_value(s@.subrange(start as int, k as int)) >= 0,
            acc == (if digits_value(s@.subrange(start as int, k as int)) < SATURATION {
                digits_value(s@.subrange(start as int, k as int))
            } else {
                SATURATION as int
            }),
        decreases n - k,
    {
        if !(0x30 <= s[k] && s[k] <= 0x39) {
            assert(!all_digits(d)) by {
                assert(d[k - start] == s@[k as int]);
            }
            assert(parse_int(s@).is_none()) by {
                assert(digits_part(s@) =~= d);
            }
            return None;
        }
        proof {
            lemma_digits_value_step(s@, start as int, k as int);
        }
        let next = acc * 10 + (s[k] - 0x30) as i128;
        acc = if next > SATURATION { SATURATION } else { next };
        k = k + 1;
    }
    assert(all_digits(d));
    assert(s@.subrange(start as int, k as int) == d);
    assert(digits_part(s@) =~= d);
    proof {
        lemma_digits_value_nonneg(d);
    }
    if neg {
        if acc > -(isize::MIN as i128) {
            None
        } else {
            Some((-acc) as isize)
        }
    } else {
        if acc > isize::MAX as i128 {
            None
        } else {
            Some(acc as isize)
        }
    }
}

fn run_end(s: &[u8], i: usize) -> (r: usize)
    requires
        i <= s@.len(),
    ensures
        r == digits_end(s@, i as int),
{
    let mut k = i;
    while k < s.len() && 0x30 <= s[k] && s[k] <= 0x39
        invariant
            i <= k <= s@.len(),
            digits_end(s@, k as int) == digits_end(s@, i as int),
        decreases s@.len() - k,
    {
        k = k + 1;
    }
    k
}

fn matches_ci(s: &[u8], i: usize, word: &[u8]) -> (r: bool)
    requires
        i <= s@.len(),
    ensures
        r == is_word_ci(s@, i as int, word@),
{
    let n = s.len();
    if n - i != word.len() {
        return false;
    }
    let mut k: usize = 0;
    while k < word.len()
        invariant
            n == s@.len(),
            i <= s@.len(),
            s@.len() - i == word@.len(),
            k <= word@.len(),
            forall|j: int| 0 <= j < k ==> lower(#[trigger] s@[i + j]) == word@[j],
        decreases word@.len() - k,
    {
        let c = s[i + k];
        let lc = if 0x41 <= c && c <= 0x5a { c + 0x20 } else { c };
        if lc != word[k] {
            return false;
        }
        k = k + 1;
    }
    true
}

fn is_decimal(s: &[u8], i: usize) -> (r: bool)
    requires
        i <= s@.len(),
    ensures
        r == is_decimal_text(s@, i as int),
{
    let n = s.len();
    let a = run_end(s, i);
    proof {
        lemma_digits_end(s@, i as int);
    }
    let has_dot = a < n && s[a] == 0x2e;
    let b = if has_dot {
        proof {
            lemma_digits_end(s@, a + 1);
        }
        run_end(s, a + 1)
    } else {
        a
    };
    let n_digits = if has_dot { (a - i) + (b - a - 1) } else { a - i };
    if n_digits == 0 {
        return false;
    }
    if b == n {
        return true;
    }
    if !(s[b] == 0x65 || s[b] == 0x45) {
        return false;
    }
    let e_sign = if b + 1 < n && (s[b + 1] == 0x2d || s[b + 1] == 0x2b) { b + 2 } else { b + 1 };
    if e_sign >= n {
        return false;
    }
    run_end(s, e_sign) == n
}

/// Whether `s` is a number in the syntax that `f32::from_str` accepts.
pub fn is_number(s: &[u8]) -> (r: bool)
    ensures
        r == is_number_text(s@),
{
    let i: usize = if s.len() > 0 && (s[0] == 0x2d || s[0] == 0x2b) { 1 } else { 0 };
    let inf: [u8; 3] = [0x69, 0x6e, 0x66];
    let infinity: [u8; 8] = [0x69, 0x6e, 0x66, 0x69, 0x6e, 0x69, 0x74, 0x79];
    let nan: [u8; 3] = [0x6e, 0x61, 0x6e];
    assert(inf@ =~= seq![0x69u8, 0x6eu8, 0x66u8]);
    assert(infinity@ =~= seq![0x69u8, 0x6eu8, 0x66u8, 0x69u8, 0x6eu8, 0x69u8, 0x74u8, 0x79u8]);
    assert(nan@ =~= seq![0x6eu8, 0x61u8, 0x6eu8]);
    matches_ci(s, i, &inf) || matches_ci(s, i, &infinity) || matches_ci(s, i, &nan) || is_decimal(s, i)
}

/// `s` without leading and trailing whitespace.
pub fn trim_bytes(s: &[u8]) -> (r: Vec<u8>)
    ensures
        r@ == trim(s@),
{
    let a = skip_spaces(s, 0);
    let mut e = s.len();
    while e > 0 && is_space_byte(s[e - 1])
        invariant
            e <= s@.len(),
            trim_end(s@, e as int) == trim_end(s@, s@.len() as int),
        decreases e,
    {
        e = e - 1;
    }
    proof {
        lemma_skip_space(s@, 0);
    }
    if a < e {
        copy_range(s, a, e)
    } else {
        Vec::new()
    }
}

/// What follows the first word of `line`, without surrounding whitespace.
pub fn rest_of_line(line: &[u8]) -> (r: Vec<u8>)
    ensures
        r@ == rest_after_first(line@),
{
    let a = skip_spaces(line, 0);
    proof {
        lemma_skip_space(line@, 0);
    }
    let b = skip_non_space(line, a);
    proof {
        lemma_skip_word(line@, a as int);
    }
    let tail = copy_range(line, b, line.len());
    trim_bytes(tail.as_slice())
}

/// The words `ws[from..to]` joined with single spaces.
pub fn join_from(ws: &Vec<Vec<u8>>, from: usize, to: usize) -> (r: Vec<u8>)
    requires
        from <= to <= ws@.len(),
    ensures
        r@ == join_words(seqs_of(ws@).subrange(from as int, to as int)),
{
    let mut r: Vec<u8> = Vec::new();
    let mut k = from;
    while k < to
        invariant
            from <= k <= to <= ws@.len(),
            r@ == join_words(seqs_of(ws@).subrange(from as int, k as int)),
        decreases to - k,
    {
        let ghost before = r@;
        if k > from {
            r.push(0x20);
        }
        let w = &ws[k];
        let mut j: usize = 0;
        let ghost mid = r@;
        while j < w.len()
            invariant
                j <= w@.len(),
                r@ == mid + w@.subrange(0, j as int),
            decreases w@.len() - j,
        {
            r.push(w[j]);
            j = j + 1;
            assert(r@ =~= mid + w@.subrange(0, j as int));
        }
        proof {
            let ps = seqs_of(ws@).subrange(from as int, k as int + 1);
            assert(ps.drop_last() =~= seqs_of(ws@).subrange(from as int, k as int));
            assert(w@.subrange(0, w@.len() as int) =~= w@);
            if k > from {
                assert(r@ =~= before + seq![0x20u8] + ps.last());
            } else {
                assert(ps.len() == 1);
                assert(r@ =~= ps[0]);
            }
        }
        k = k + 1;
    }
    r
}

/// Whether `w` equals the literal `lit`, whose contents are `expected`.
pub fn equals_literal(w: &[u8], lit: &[u8], Ghost(expected): Ghost<Seq<u8>>) -> (r: bool)
    requires
        lit@ == expected,
    ensures
        r == (w@ == expected),
{
    bytes_eq(w, lit)
}

} // verus!
