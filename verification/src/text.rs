use vstd::prelude::*;
use vstd::string::StringSliceAdditionalSpecFns;
use vstd::utf8::{decode_utf8, valid_utf8};

verus! {

// ---------------------------------------------------------------------------
// Plain conversions between `str`/`String` and character vectors
// ---------------------------------------------------------------------------

/// The characters of `s`, in order.
pub fn chars_of(s: &str) -> (chars: Vec<char>)
    ensures
        chars@ == s@,
{
    let mut chars: Vec<char> = Vec::new();
    for c in it: s.chars()
        invariant
            chars@ == it.seq().take(it.index() as int),
    {
        chars.push(c);
    }
    chars
}

/// A `String` holding exactly the given characters (std's `FromIterator<&char>` for `String`).
#[verifier::external_body]
pub fn string_of(chars: &[char]) -> (s: String)
    ensures
        s@ == chars@,
{
    chars.iter().collect()
}

/// `bytes` read as UTF-8 text (std's `str::from_utf8`): there is a text exactly when the bytes
/// are valid UTF-8, and its encoding is then the bytes themselves.
#[verifier::external_body]
pub fn utf8_str(bytes: &[u8]) -> (text: Option<&str>)
    ensures
        text is Some <==> valid_utf8(bytes@),
        text matches Some(t) ==> t.spec_bytes() == bytes@,
{
    std::str::from_utf8(bytes).ok()
}

/// The owned text that `bytes` encode, when they are valid UTF-8.
pub fn utf8_string(bytes: &[u8]) -> (text: Option<String>)
    ensures
        text is Some <==> valid_utf8(bytes@),
        text matches Some(t) ==> t@ == decode_utf8(bytes@),
{
    match utf8_str(bytes) {
        Some(t) => {
            proof {
                vstd::utf8::encode_utf8_decode_utf8(t@);
            }
            Some(t.to_owned())
        },
        None => None,
    }
}

/// Appends the characters of `tail` to `out`.
pub fn push_all(out: &mut Vec<char>, tail: &[char])
    ensures
        final(out)@ == old(out)@ + tail@,
{
    let ghost start = out@;
    let mut i: usize = 0;
    while i < tail.len()
        invariant
            i <= tail@.len(),
            out@ =~= start + tail@.take(i as int),
        decreases tail@.len() - i,
    {
        out.push(tail[i]);
        i = i + 1;
    }
    assert(tail@.take(tail@.len() as int) =~= tail@);
}

/// Whether two character sequences are equal.
pub fn chars_equal(a: &[char], b: &[char]) -> (same: bool)
    ensures
        same == (a@ == b@),
{
    if a.len() != b.len() {
        return false;
    }
    let mut i: usize = 0;
    while i < a.len()
        invariant
            a@.len() == b@.len(),
            i <= a@.len(),
            forall|j: int| 0 <= j < i ==> a@[j] == b@[j],
        decreases a@.len() - i,
    {
        if a[i] != b[i] {
            return false;
        }
        i = i + 1;
    }
    assert(a@ =~= b@);
    true
}

/// Whether `s` reads exactly `lit`.
pub fn text_is(s: &str, lit: &str) -> (same: bool)
    ensures
        same == (s@ == lit@),
{
    let a = chars_of(s);
    let b = chars_of(lit);
    chars_equal(a.as_slice(), b.as_slice())
}

// ---------------------------------------------------------------------------
// Joining
// ---------------------------------------------------------------------------

/// `parts` joined with `sep` between consecutive parts (what `[String]::join` gives).
pub open spec fn seq_join(parts: Seq<Seq<char>>, sep: Seq<char>) -> Seq<char>
    decreases parts.len(),
{
    if parts.len() == 0 {
        Seq::empty()
    } else if parts.len() == 1 {
        parts[0]
    } else {
        seq_join(parts.drop_last(), sep) + sep + parts.last()
    }
}

/// The views of a vector of strings.
pub open spec fn strings_view(v: Seq<String>) -> Seq<Seq<char>> {
    v.map_values(|s: String| s@)
}

/// Joins `parts` with `sep` between consecutive parts.
pub fn join_strings(parts: &Vec<String>, sep: &str) -> (joined: String)
    ensures
        joined@ == seq_join(strings_view(parts@), sep@),
{
    let mut joined = String::new();
    let ghost views = strings_view(parts@);
    let n = parts.len();
    let mut i: usize = 0;
    while i < n
        invariant
            n == parts@.len(),
            views == strings_view(parts@),
            i <= n,
            joined@ == seq_join(views.take(i as int), sep@),
        decreases n - i,
    {
        if i != 0 {
            joined.append(sep);
        }
        joined.append(parts[i].as_str());
        assert(views.take((i + 1) as int).drop_last() =~= views.take(i as int));
        i = i + 1;
    }
    assert(views.take(n as int) =~= views);
    joined
}

// ---------------------------------------------------------------------------
// Decimal and hexadecimal digits
// ---------------------------------------------------------------------------

/// The character for a digit value below 16 (lower-case letters above 9).
pub open spec fn digit_char(d: nat) -> char {
    if d < 10 {
        (('0' as nat) + d) as char
    } else {
        (('a' as nat) + d - 10) as char
    }
}

/// The decimal notation of `n`, as `{}` formats an unsigned integer.
pub open spec fn decimal(n: nat) -> Seq<char>
    decreases n,
{
    if n < 10 {
        seq![digit_char(n)]
    } else {
        decimal(n / 10).push(digit_char(n % 10))
    }
}

/// The two lower-case hexadecimal digits of each byte, in order (what `{:x}` writes for a digest).
pub open spec fn lower_hex(bytes: Seq<u8>) -> Seq<char>
    decreases bytes.len(),
{
    if bytes.len() == 0 {
        Seq::empty()
    } else {
        lower_hex(bytes.drop_last()) + seq![
            digit_char((bytes.last() / 16) as nat),
            digit_char((bytes.last() % 16) as nat),
        ]
    }
}

fn digit(d: u32) -> (c: char)
    requires
        d < 16,
    ensures
        c == digit_char(d as nat),
{
    match d {
        0 => '0',
        1 => '1',
        2 => '2',
        3 => '3',
        4 => '4',
        5 => '5',
        6 => '6',
        7 => '7',
        8 => '8',
        9 => '9',
        10 => 'a',
        11 => 'b',
        12 => 'c',
        13 => 'd',
        14 => 'e',
        _ => 'f',
    }
}

/// The decimal notation of `n`.
pub fn decimal_string(n: usize) -> (s: String)
    ensures
        s@ == decimal(n as nat),
{
    let mut rest: usize = n;
    let mut low: Vec<char> = Vec::new();
    while rest >= 10
        invariant
            decimal(n as nat) == decimal(rest as nat) + low@,
        decreases rest,
    {
        let d = digit((rest % 10) as u32);
        low.insert(0, d);
        assert(decimal(rest as nat) == decimal((rest / 10) as nat).push(digit_char((rest % 10) as nat)));
        assert(decimal(rest as nat) + low@.drop_first() =~= decimal((rest / 10) as nat) + low@);
        rest = rest / 10;
    }
    let mut all: Vec<char> = Vec::new();
    all.push(digit(rest as u32));
    all.append(&mut low);
    assert(all@ =~= decimal(n as nat));
    string_of(all.as_slice())
}

/// The lower-case hexadecimal notation of `bytes`, two digits per byte.
pub fn lower_hex_string(bytes: &[u8]) -> (s: String)
    ensures
        s@ == lower_hex(bytes@),
{
    let mut out: Vec<char> = Vec::new();
    let mut i: usize = 0;
    while i < bytes.len()
        invariant
            i <= bytes@.len(),
            out@ == lower_hex(bytes@.take(i as int)),
        decreases bytes@.len() - i,
    {
        let b = bytes[i];
        out.push(digit((b / 16) as u32));
        out.push(digit((b % 16) as u32));
        assert(bytes@.take((i + 1) as int).drop_last() =~= bytes@.take(i as int));
        i = i + 1;
        assert(out@ =~= lower_hex(bytes@.take(i as int)));
    }
    assert(bytes@.take(bytes@.len() as int) =~= bytes@);
    string_of(out.as_slice())
}

// ---------------------------------------------------------------------------
// Whitespace trimming and splitting
// ---------------------------------------------------------------------------

/// Unicode `White_Space`, the property that `char::is_whitespace` and `str::trim` go by.
pub open spec fn is_whitespace(c: char) -> bool {
    let u = c as u32;
    ||| 0x09 <= u <= 0x0d
    ||| u == 0x20
    ||| u == 0x85
    ||| u == 0xa0
    ||| u == 0x1680
    ||| 0x2000 <= u <= 0x200a
    ||| u == 0x2028
    ||| u == 0x2029
    ||| u == 0x202f
    ||| u == 0x205f
    ||| u == 0x3000
}

/// `s` without its leading whitespace.
pub open spec fn trim_start(s: Seq<char>) -> Seq<char>
    decreases s.len(),
{
    if s.len() > 0 && is_whitespace(s[0]) {
        trim_start(s.drop_first())
    } else {
        s
    }
}

/// `s` without its trailing whitespace.
pub open spec fn trim_end(s: Seq<char>) -> Seq<char>
    decreases s.len(),
{
    if s.len() > 0 && is_whitespace(s.last()) {
        trim_end(s.drop_last())
    } else {
        s
    }
}

/// `s` without leading and trailing whitespace (what `str::trim` gives).
pub open spec fn trim(s: Seq<char>) -> Seq<char> {
    trim_end(trim_start(s))
}

fn whitespace(c: char) -> (w: bool)
    ensures
        w == is_whitespace(c),
{
    let u = c as u32;
    (0x09 <= u && u <= 0x0d) || u == 0x20 || u == 0x85 || u == 0xa0 || u == 0x1680 || (0x2000
        <= u && u <= 0x200a) || u == 0x2028 || u == 0x2029 || u == 0x202f || u == 0x205f || u
        == 0x3000
}

proof fn lemma_trim_start_skip(s: Seq<char>, i: int)
    requires
        0 <= i <= s.len(),
        forall|j: int| 0 <= j < i ==> is_whitespace(#[trigger] s[j]),
    ensures
        trim_start(s) == trim_start(s.subrange(i, s.len() as int)),
    decreases i,
{
    if i > 0 {
        lemma_trim_start_skip(s.drop_first(), i - 1);
        assert(s.drop_first().subrange(i - 1, s.drop_first().len() as int) =~= s.subrange(
            i,
            s.len() as int,
        ));
    } else {
        assert(s.subrange(0, s.len() as int) =~= s);
    }
}

proof fn lemma_trim_end_cut(s: Seq<char>, k: int)
    requires
        0 <= k <= s.len(),
        forall|j: int| k <= j < s.len() ==> is_whitespace(#[trigger] s[j]),
    ensures
        trim_end(s) == trim_end(s.subrange(0, k)),
    decreases s.len() - k,
{
    if k < s.len() {
        lemma_trim_end_cut(s.drop_last(), k);
        assert(s.drop_last().subrange(0, k) =~= s.subrange(0, k));
    } else {
        assert(s.subrange(0, k) =~= s);
    }
}

/// The characters of `s` without leading and trailing whitespace.
pub fn trim_chars(s: &[char]) -> (t: Vec<char>)
    ensures
        t@ == trim(s@),
{
    let n = s.len();
    let mut i: usize = 0;
    while i < n && whitespace(s[i])
        invariant
            n == s@.len(),
            i <= n,
            forall|j: int| 0 <= j < i ==> is_whitespace(#[trigger] s@[j]),
        decreases n - i,
    {
        i = i + 1;
    }
    proof {
        lemma_trim_start_skip(s@, i as int);
    }
    let ghost rest = s@.subrange(i as int, n as int);
    assert(i < n ==> rest[0] == s@[i as int]);
    assert(trim_start(rest) == rest);
    let mut k: usize = n;
    while k > i && whitespace(s[k - 1])
        invariant
            n == s@.len(),
            i <= k <= n,
            forall|j: int| k <= j < n ==> is_whitespace(#[trigger] s@[j]),
        decreases k,
    {
        k = k - 1;
    }
    proof {
        let r = rest;
        assert forall|j: int| k - i <= j < r.len() implies is_whitespace(#[trigger] r[j]) by {
            assert(r[j] == s@[j + i]);
        }
        lemma_trim_end_cut(r, k - i);
        let cut = r.subrange(0, k - i);
        if cut.len() > 0 {
            assert(cut.last() == s@[k - 1]);
        }
        assert(trim_end(cut) == cut);
        assert(cut =~= s@.subrange(i as int, k as int));
    }
    let mut t: Vec<char> = Vec::new();
    let mut j: usize = i;
    while j < k
        invariant
            n == s@.len(),
            i <= j <= k <= n,
            t@ =~= s@.subrange(i as int, j as int),
        decreases k - j,
    {
        t.push(s[j]);
        j = j + 1;
    }
    t
}

/// The pieces of `s` between occurrences of `sep` (what `str::split` with a `char` gives);
/// there is always at least one piece.
pub open spec fn split_on(s: Seq<char>, sep: char) -> Seq<Seq<char>>
    decreases s.len(),
{
    if s.len() == 0 {
        seq![Seq::empty()]
    } else {
        let rest = split_on(s.drop_first(), sep);
        if s[0] == sep {
            seq![Seq::<char>::empty()] + rest
        } else {
            rest.update(0, seq![s[0]] + rest[0])
        }
    }
}

proof fn lemma_split_on_nonempty(s: Seq<char>, sep: char)
    ensures
        split_on(s, sep).len() >= 1,
    decreases s.len(),
{
    if s.len() > 0 {
        lemma_split_on_nonempty(s.drop_first(), sep);
    }
}

/// The views of a vector of character vectors.
pub open spec fn pieces_view(v: Seq<Vec<char>>) -> Seq<Seq<char>> {
    v.map_values(|p: Vec<char>| p@)
}

/// Splits `s` at every occurrence of `sep`.
pub fn split_chars(s: &[char], sep: char) -> (pieces: Vec<Vec<char>>)
    ensures
        pieces_view(pieces@) == split_on(s@, sep),
        pieces@.len() >= 1,
{
    let n = s.len();
    let mut pieces: Vec<Vec<char>> = Vec::new();
    pieces.push(Vec::new());
    let mut i: usize = n;
    assert(s@.subrange(n as int, n as int) =~= Seq::<char>::empty());
    assert(pieces_view(pieces@) =~= split_on(Seq::<char>::empty(), sep));
    while i > 0
        invariant
            n == s@.len(),
            i <= n,
            pieces@.len() >= 1,
            pieces_view(pieces@) =~= split_on(s@.subrange(i as int, n as int), sep),
        decreases i,
    {
        let ghost tail = s@.subrange((i - 1) as int, n as int);
        assert(tail.drop_first() =~= s@.subrange(i as int, n as int));
        assert(tail[0] == s@[i - 1]);
        let c = s[i - 1];
        if c == sep {
            pieces.insert(0, Vec::new());
            assert(pieces_view(pieces@) =~= seq![Seq::<char>::empty()] + split_on(
                tail.drop_first(),
                sep,
            ));
        } else {
            let ghost before = pieces@;
            let ghost rest = split_on(tail.drop_first(), sep);
            assert(rest[0] == before[0]@);
            let mut first = pieces.remove(0);
            first.insert(0, c);
            assert(first@ =~= seq![c] + before[0]@);
            pieces.insert(0, first);
            assert(pieces@ =~= seq![first] + before.drop_first());
            assert(pieces_view(pieces@) =~= rest.update(0, seq![c] + rest[0]));
        }
        i = i - 1;
    }
    assert(s@.subrange(0, n as int) =~= s@);
    pieces
}

// ---------------------------------------------------------------------------
// Ordering
// ---------------------------------------------------------------------------

/// Lexicographic order on character sequences, character by character on their code points
/// (for UTF-8 text this is the byte order that `Ord for str` uses).
pub open spec fn chars_less(a: Seq<char>, b: Seq<char>) -> bool
    decreases a.len(),
{
    if a.len() == 0 {
        b.len() > 0
    } else if b.len() == 0 {
        false
    } else if a[0] != b[0] {
        (a[0] as u32) < (b[0] as u32)
    } else {
        chars_less(a.drop_first(), b.drop_first())
    }
}

/// Whether `a` comes before `b` in lexicographic order.
pub fn chars_lt(a: &[char], b: &[char]) -> (less: bool)
    ensures
        less == chars_less(a@, b@),
{
    let mut i: usize = 0;
    assert(a@.skip(0) =~= a@);
    assert(b@.skip(0) =~= b@);
    while i < a.len() && i < b.len() && a[i] == b[i]
        invariant
            i <= a@.len(),
            i <= b@.len(),
            chars_less(a@, b@) == chars_less(a@.skip(i as int), b@.skip(i as int)),
        decreases a@.len() - i,
    {
        assert(a@.skip(i as int).drop_first() =~= a@.skip(i + 1));
        assert(b@.skip(i as int).drop_first() =~= b@.skip(i + 1));
        i = i + 1;
    }
    if i == a.len() {
        i < b.len()
    } else if i == b.len() {
        false
    } else {
        (a[i] as u32) < (b[i] as u32)
    }
}

/// No sequence comes before itself.
pub proof fn lemma_chars_less_irreflexive(a: Seq<char>)
    ensures
        !chars_less(a, a),
    decreases a.len(),
{
    if a.len() > 0 {
        lemma_chars_less_irreflexive(a.drop_first());
    }
}

/// Of two different sequences, one comes before the other.
pub proof fn lemma_chars_less_total(a: Seq<char>, b: Seq<char>)
    ensures
        a != b ==> chars_less(a, b) || chars_less(b, a),
    decreases a.len(),
{
    if a.len() > 0 && b.len() > 0 && a[0] == b[0] {
        lemma_chars_less_total(a.drop_first(), b.drop_first());
        if a.drop_first() == b.drop_first() {
            assert(a =~= seq![a[0]] + a.drop_first());
            assert(b =~= seq![b[0]] + b.drop_first());
        }
    } else if a.len() == 0 && b.len() == 0 {
        assert(a =~= b);
    } else if a.len() > 0 && b.len() > 0 {
        if (a[0] as u32) == (b[0] as u32) {
            vstd::utf8::char_u32_cast(a[0], a[0] as u32);
            vstd::utf8::char_u32_cast(b[0], b[0] as u32);
        }
    }
}

/// The order is transitive.
pub proof fn lemma_chars_less_transitive(a: Seq<char>, b: Seq<char>, c: Seq<char>)
    requires
        chars_less(a, b),
        chars_less(b, c),
    ensures
        chars_less(a, c),
    decreases a.len(),
{
    if a.len() > 0 && b.len() > 0 && c.len() > 0 && a[0] == b[0] && b[0] == c[0] {
        lemma_chars_less_transitive(a.drop_first(), b.drop_first(), c.drop_first());
    }
}

/// The order is asymmetric.
pub proof fn lemma_chars_less_asymmetric(a: Seq<char>, b: Seq<char>)
    requires
        chars_less(a, b),
    ensures
        !chars_less(b, a),
{
    if chars_less(b, a) {
        lemma_chars_less_transitive(a, b, a);
        lemma_chars_less_irreflexive(a);
    }
}

/// The number that a sequence of decimal digits denotes.
pub open spec fn digits_value(s: Seq<char>) -> int
    decreases s.len(),
{
    if s.len() == 0 {
        0
    } else {
        digits_value(s.drop_last()) * 10 + ((s.last() as u32) - 48)
    }
}

/// The decimal notation of a number is made of the digits `0` to `9` and denotes that number.
pub proof fn law_decimal_denotes(n: nat)
    ensures
        decimal(n).len() > 0,
        forall|k: int| 0 <= k < decimal(n).len() ==> 48 <= #[trigger] (decimal(n)[k] as u32) <= 57,
        digits_value(decimal(n)) == n,
    decreases n,
{
    let d = decimal(n);
    if n < 10 {
        assert(d[0] as u32 == 48 + n);
        assert(d.drop_last() =~= Seq::<char>::empty());
        assert(d.last() == d[0]);
        assert(digits_value(d) == digits_value(d.drop_last()) * 10 + ((d.last() as u32) - 48));
    } else {
        law_decimal_denotes(n / 10);
        assert(d.drop_last() =~= decimal(n / 10));
        assert(d.last() as u32 == 48 + n % 10);
        assert forall|k: int| 0 <= k < d.len() implies 48 <= #[trigger] (d[k] as u32) <= 57 by {
            if k < d.len() - 1 {
                assert(d[k] == decimal(n / 10)[k]);
            }
        }
        assert(digits_value(d) == digits_value(d.drop_last()) * 10 + ((d.last() as u32) - 48));
        assert(digits_value(d) == (n / 10) * 10 + n % 10);
        assert((n / 10) * 10 + n % 10 == n);
    }
}

/// Joined parts are the first part followed, for every further part in order, by the separator
/// and that part.
pub proof fn law_join_is_separated_parts(parts: Seq<Seq<char>>, sep: Seq<char>)
    requires
        parts.len() > 0,
    ensures
        seq_join(parts, sep) == parts[0] + parts.drop_first().flat_map(|p: Seq<char>| sep + p),
    decreases parts.len(),
{
    let f = |p: Seq<char>| sep + p;
    if parts.len() == 1 {
        assert(parts.drop_first().map_values(f) =~= Seq::<Seq<char>>::empty());
        assert(parts.drop_first().map_values(f).flatten() =~= Seq::<char>::empty());
        assert(parts[0] + Seq::<char>::empty() =~= parts[0]);
    } else {
        let front = parts.drop_last();
        law_join_is_separated_parts(front, sep);
        assert(front[0] == parts[0]);
        assert(parts.drop_first().map_values(f) =~= front.drop_first().map_values(f).push(sep + parts.last()));
        front.drop_first().map_values(f).lemma_flatten_push(sep + parts.last());
        assert(seq_join(parts, sep) =~= parts[0] + parts.drop_first().flat_map(f));
    }
}

/// Splitting text that holds a separator splits the parts on either side of it.
pub proof fn lemma_split_concat(a: Seq<char>, sep: char, b: Seq<char>)
    ensures
        split_on(a + seq![sep] + b, sep) == split_on(a, sep) + split_on(b, sep),
    decreases a.len(),
{
    let s = a + seq![sep] + b;
    if a.len() == 0 {
        assert(s.drop_first() =~= b);
        assert(s[0] == sep);
        assert(split_on(s, sep) =~= split_on(a, sep) + split_on(b, sep));
    } else {
        let rest_a = a.drop_first();
        lemma_split_concat(rest_a, sep, b);
        lemma_split_on_nonempty(rest_a, sep);
        assert(s.drop_first() =~= rest_a + seq![sep] + b);
        assert(s[0] == a[0]);
        assert(split_on(s, sep) =~= split_on(a, sep) + split_on(b, sep));
    }
}

/// Text without the separator is a single piece.
pub proof fn lemma_split_single(s: Seq<char>, sep: char)
    requires
        forall|k: int| 0 <= k < s.len() ==> s[k] != sep,
    ensures
        split_on(s, sep) == seq![s],
    decreases s.len(),
{
    if s.len() > 0 {
        lemma_split_single(s.drop_first(), sep);
        assert(seq![s[0]] + s.drop_first() =~= s);
        assert(split_on(s, sep) =~= seq![s]);
    } else {
        assert(s =~= Seq::<char>::empty());
    }
}

/// The order decides at the first position where two sequences differ, by code point, and a
/// proper prefix comes before the longer sequence.
pub proof fn law_chars_less_first_difference(a: Seq<char>, b: Seq<char>, k: int)
    requires
        0 <= k <= a.len(),
        k <= b.len(),
        a.take(k) == b.take(k),
    ensures
        k < a.len() && k < b.len() && a[k] != b[k] ==> (chars_less(a, b) <==> (a[k] as u32) < (b[k] as u32)),
        k == a.len() && k < b.len() ==> chars_less(a, b),
        k == b.len() ==> !chars_less(a, b),
    decreases k,
{
    if k > 0 {
        assert(a[0] == a.take(k)[0] && b[0] == b.take(k)[0]);
        assert(a.drop_first().take(k - 1) =~= a.take(k).drop_first());
        assert(b.drop_first().take(k - 1) =~= b.take(k).drop_first());
        law_chars_less_first_difference(a.drop_first(), b.drop_first(), k - 1);
    }
}

} // verus!
