//! The one reader for a quoted literal, and the one rule for what a backslash
//! means inside it.
//!
//! A literal opens with `"` or `'` and closes at the next unescaped occurrence
//! of the same quote. Exactly three escapes exist: `\\`, `\'` and `\"`. Any
//! other character after a backslash is an error that names it.
//!
//! Byte indices (`open`, `end`) are UTF-8 byte offsets into the source; every
//! position this module *reports* is a character offset.
use vstd::prelude::*;
use vstd::std_specs::iter::IteratorSpec;
use vstd::utf8::*;

verus! {

broadcast use vstd::string::group_string_axioms;

// ---------------------------------------------------------------------------
// The model: text as a sequence of characters, bytes as its UTF-8 encoding.
// ---------------------------------------------------------------------------

/// Whether `c` is one of the two quote characters.
pub open spec fn is_quote_char(c: char) -> bool {
    c == '"' || c == '\''
}

/// The number of bytes the UTF-8 encoding of `s` takes.
pub open spec fn utf8_len(s: Seq<char>) -> nat {
    encode_utf8(s).len()
}

/// `k` characters of `s` take exactly `at` bytes: byte index `at` is the
/// boundary in front of character `k`.
pub open spec fn is_boundary_at(s: Seq<char>, k: int, at: int) -> bool {
    0 <= k <= s.len() && utf8_len(s.take(k)) == at
}

/// The character offset of byte index `at` in `s`: the number of characters
/// before it when `at` is a character boundary, and `at` itself otherwise.
pub open spec fn char_offset_of(s: Seq<char>, at: int) -> int {
    if exists|k: int| is_boundary_at(s, k, at) {
        choose|k: int| is_boundary_at(s, k, at)
    } else {
        at
    }
}

// ---------------------------------------------------------------------------
// Facts about UTF-8 lengths.
// ---------------------------------------------------------------------------

/// Encoding a concatenation concatenates the encodings.
pub proof fn lemma_encode_utf8_concat(a: Seq<char>, b: Seq<char>)
    ensures
        encode_utf8(a + b) == encode_utf8(a) + encode_utf8(b),
    decreases a.len(),
{
    if a.len() == 0 {
        assert(a + b =~= b);
        assert(encode_utf8(a) =~= Seq::<u8>::empty());
        assert(encode_utf8(a) + encode_utf8(b) =~= encode_utf8(b));
    } else {
        assert((a + b)[0] == a[0]);
        assert((a + b).drop_first() =~= a.drop_first() + b);
        lemma_encode_utf8_concat(a.drop_first(), b);
        assert(encode_utf8(a + b) =~= encode_scalar(a[0] as u32) + encode_utf8(a.drop_first() + b));
        assert(encode_utf8(a + b) =~= encode_utf8(a) + encode_utf8(b));
    }
}

/// Every character takes between one and four bytes.
pub proof fn lemma_scalar_width(c: char)
    ensures
        1 <= encode_scalar(c as u32).len() <= 4,
{
    char_is_scalar(c);
}

/// The prefix of `k + 1` characters takes the bytes of the first `k` plus
/// those of character `k`.
pub proof fn lemma_utf8_len_step(s: Seq<char>, k: int)
    requires
        0 <= k < s.len(),
    ensures
        utf8_len(s.take(k + 1)) == utf8_len(s.take(k)) + encode_scalar(s[k] as u32).len(),
{
    assert(s.take(k + 1) =~= s.take(k) + seq![s[k]]);
    lemma_encode_utf8_concat(s.take(k), seq![s[k]]);
    assert(seq![s[k]].drop_first() =~= Seq::<char>::empty());
    assert(encode_utf8(seq![s[k]]) =~= encode_scalar(s[k] as u32) + encode_utf8(
        Seq::<char>::empty(),
    ));
    assert(encode_utf8(seq![s[k]]) =~= encode_scalar(s[k] as u32));
}

/// Longer prefixes take strictly more bytes.
pub proof fn lemma_utf8_len_strictly_increasing(s: Seq<char>, j: int, k: int)
    requires
        0 <= j < k <= s.len(),
    ensures
        utf8_len(s.take(j)) < utf8_len(s.take(k)),
    decreases k - j,
{
    lemma_utf8_len_step(s, k - 1);
    lemma_scalar_width(s[k - 1]);
    if j < k - 1 {
        lemma_utf8_len_strictly_increasing(s, j, k - 1);
    }
}

/// A prefix never takes more bytes than the whole.
pub proof fn lemma_utf8_len_prefix_bound(s: Seq<char>, k: int)
    requires
        0 <= k <= s.len(),
    ensures
        utf8_len(s.take(k)) <= utf8_len(s),
{
    assert(s.take(s.len() as int) =~= s);
    if k < s.len() {
        lemma_utf8_len_strictly_increasing(s, k, s.len() as int);
    }
}

/// A byte index is the boundary in front of at most one character.
pub proof fn lemma_boundary_unique(s: Seq<char>, j: int, k: int, at: int)
    requires
        is_boundary_at(s, j, at),
        is_boundary_at(s, k, at),
    ensures
        j == k,
{
    if j < k {
        lemma_utf8_len_strictly_increasing(s, j, k);
    } else if k < j {
        lemma_utf8_len_strictly_increasing(s, k, j);
    }
}

/// A position is a character offset, not a byte offset: at the boundary in
/// front of character `k`, the offset reported is `k`, however many bytes the
/// characters before it take.
pub proof fn law_char_offset_counts_characters(s: Seq<char>, k: int)
    requires
        0 <= k <= s.len(),
    ensures
        char_offset_of(s, utf8_len(s.take(k)) as int) == k,
{
    let at = utf8_len(s.take(k)) as int;
    assert(is_boundary_at(s, k, at));
    let j = choose|j: int| is_boundary_at(s, j, at);
    lemma_boundary_unique(s, j, k, at);
}

// ---------------------------------------------------------------------------
// Small executable helpers.
// ---------------------------------------------------------------------------

/// Whether byte `b` opens a literal. Both quote styles are accepted, and the
/// closing quote must be the same character, so `"it's"` and `'say "hi"'` each
/// carry the other quote as content.
pub fn is_quote(b: u8) -> (r: bool)
    ensures
        r == (b == 0x22u8 || b == 0x27u8),
{
    b == 0x22u8 || b == 0x27u8
}

/// The characters of `src`, in order.
fn chars_of(src: &str) -> (v: Vec<char>)
    ensures
        v@ == src@,
{
    let mut v: Vec<char> = Vec::new();
    for c in it: src.chars()
        invariant
            v@ == it.seq().take(it.index() as int),
    {
        v.push(c);
    }
    v
}

/// The number of bytes `c` takes in UTF-8.
fn char_width(c: char) -> (w: usize)
    ensures
        w as nat == encode_scalar(c as u32).len(),
        1 <= w <= 4,
{
    proof {
        char_is_scalar(c);
    }
    let u = c as u32;
    if u <= 0x7F {
        1
    } else if u <= 0x7FF {
        2
    } else if u <= 0xFFFF {
        3
    } else {
        4
    }
}


/// The character whose front boundary is byte index `at`, if any.
fn boundary_index(chars: &Vec<char>, at: usize) -> (r: Option<usize>)
    requires
        utf8_len(chars@) <= usize::MAX,
    ensures
        match r {
            Some(k) => is_boundary_at(chars@, k as int, at as int),
            None => !exists|k: int| is_boundary_at(chars@, k, at as int),
        },
{
    let n = chars.len();
    let mut k: usize = 0;
    let mut b: usize = 0;
    while k < n && b < at
        invariant
            0 <= k <= n,
            n == chars@.len(),
            b as int == utf8_len(chars@.take(k as int)),
            utf8_len(chars@) <= usize::MAX,
            forall|j: int| 0 <= j < k ==> utf8_len(#[trigger] chars@.take(j)) < at,
        decreases n - k,
    {
        proof {
            lemma_utf8_len_step(chars@, k as int);
            lemma_utf8_len_prefix_bound(chars@, k + 1);
        }
        b = b + char_width(chars[k]);
        k = k + 1;
    }
    if b == at {
        Some(k)
    } else {
        proof {
            assert forall|j: int| !is_boundary_at(chars@, j, at as int) by {
                if is_boundary_at(chars@, j, at as int) {
                    if j > k {
                        lemma_utf8_len_strictly_increasing(chars@, k as int, j);
                    }
                }
            }
        }
        None
    }
}

/// The characters of `src` with the knowledge that its byte length fits.
fn chars_with_bound(src: &str) -> (v: Vec<char>)
    ensures
        v@ == src@,
        utf8_len(src@) <= usize::MAX,
{
    let bytes = src.as_bytes();
    let _total = bytes.len();
    chars_of(src)
}

/// The character offset of byte index `at` in `src`.
///
/// Used for every position this module reports, so a non-ASCII identifier is
/// named at the character a reader can count to.
pub fn char_offset(src: &str, at: usize) -> (r: usize)
    ensures
        r as int == char_offset_of(src@, at as int),
{
    let chars = chars_with_bound(src);
    match boundary_index(&chars, at) {
        Some(k) => {
            proof {
                let j = choose|j: int| is_boundary_at(src@, j, at as int);
                lemma_boundary_unique(src@, j, k as int, at as int);
            }
            k
        },
        None => at,
    }
}


// ---------------------------------------------------------------------------
// What a literal reads as.
// ---------------------------------------------------------------------------

/// The three characters a backslash may protect.
pub open spec fn is_escapable(c: char) -> bool {
    c == '\\' || c == '\'' || c == '"'
}

/// How reading a literal's body ends.
pub ghost enum LiteralScan {
    /// The closing quote was found; `end` is the character index just past it.
    Closed { value: Seq<char>, end: int },
    /// The text ran out before the closing quote.
    Unterminated,
    /// The backslash at character `at` is followed by `next`, which is not escapable.
    BadEscape { at: int, next: char },
}

/// `r` with `pre` in front of its value, if it closed.
pub open spec fn prefixed(pre: Seq<char>, r: LiteralScan) -> LiteralScan {
    match r {
        LiteralScan::Closed { value, end } => LiteralScan::Closed { value: pre + value, end },
        _ => r,
    }
}

/// Reading the body of a literal delimited by `quote`, from character `i` of
/// `s` on: a quote of the same kind closes it, a backslash takes the next
/// character when it is escapable, and every other character is content.
pub open spec fn scan_literal(s: Seq<char>, quote: char, i: int) -> LiteralScan
    decreases s.len() - i,
{
    if i < 0 || i >= s.len() {
        LiteralScan::Unterminated
    } else if s[i] == quote {
        LiteralScan::Closed { value: Seq::empty(), end: i + 1 }
    } else if s[i] == '\\' {
        if i + 1 >= s.len() {
            LiteralScan::Unterminated
        } else if is_escapable(s[i + 1]) {
            prefixed(seq![s[i + 1]], scan_literal(s, quote, i + 2))
        } else {
            LiteralScan::BadEscape { at: i, next: s[i + 1] }
        }
    } else {
        prefixed(seq![s[i]], scan_literal(s, quote, i + 1))
    }
}

/// The message for a literal with no closing quote.
pub open spec fn unterminated_message() -> Seq<char> {
    "unterminated string literal"@
}

/// The message for a byte index that does not hold a quote.
pub open spec fn expected_message() -> Seq<char> {
    "expected a quoted literal here"@
}

/// The message for a literal followed by more text.
pub open spec fn trailing_message() -> Seq<char> {
    "trailing text after a quoted literal; a value is one literal or one bare word"@
}

/// The message for a backslash followed by `next`, naming that character and
/// the fix.
pub open spec fn escape_message(next: char) -> Seq<char> {
    "unrecognized escape `\\"@ + seq![next]
        + "` in a quoted literal; only `\\\\`, `\\'` and `\\\"` are escapes, so write `\\\\` for a literal backslash"@
}

/// A literal opens at byte index `open` of `s`: it is the boundary in front
/// of a quote character.
pub open spec fn literal_opens_at(s: Seq<char>, open: int) -> bool {
    exists|k: int| is_boundary_at(s, k, open) && k < s.len() && is_quote_char(#[trigger] s[k])
}

/// What reading the literal at byte index `open` of `s` gives: the value and
/// the byte index just past the closing quote, or the character offset and
/// message of the fault.
pub open spec fn read_literal_spec(s: Seq<char>, open: int) -> Result<
    (Seq<char>, int),
    (int, Seq<char>),
> {
    let k = char_offset_of(s, open);
    if literal_opens_at(s, open) {
        match scan_literal(s, s[k], k + 1) {
            LiteralScan::Closed { value, end } => Ok((value, utf8_len(s.take(end)) as int)),
            LiteralScan::Unterminated => Err((k, unterminated_message())),
            LiteralScan::BadEscape { at, next } => Err((at, escape_message(next))),
        }
    } else {
        Err((k, expected_message()))
    }
}


// ---------------------------------------------------------------------------
// Results.
// ---------------------------------------------------------------------------

/// What went wrong reading a literal, and where.
///
/// `at` is a **character** offset into the source, not a byte offset.
#[derive(Debug, Clone, PartialEq, Eq)]
pub struct LiteralError {
    /// Character offset the fault is reported at.
    pub at: usize,
    /// What the reader refused, phrased to name the construct.
    pub msg: String,
}

/// A literal read off the front of `src[open..]`.
#[derive(Debug, Clone, PartialEq, Eq)]
pub struct Literal {
    /// The content with escapes resolved.
    pub value: String,
    /// Byte index just past the closing quote.
    pub end: usize,
}

/// `String::push`: appends `c` to the end of `s`.
#[verifier::external_body]
fn push_char(s: &mut String, c: char)
    ensures
        final(s)@ == old(s)@.push(c),
{
    s.push(c);
}

/// How the executable scan ended; `end_byte` is the byte index of `end`.
enum Scanned {
    Closed { value: String, end: usize, end_byte: usize },
    Unterminated,
    BadEscape { at: usize, next: char },
}

impl Scanned {
    spec fn outcome(&self) -> LiteralScan {
        match self {
            Scanned::Closed { value, end, .. } => LiteralScan::Closed { value: value@, end: *end as int },
            Scanned::Unterminated => LiteralScan::Unterminated,
            Scanned::BadEscape { at, next } => LiteralScan::BadEscape { at: *at as int, next: *next },
        }
    }
}

proof fn lemma_prefixed_push(value: Seq<char>, c: char, r: LiteralScan)
    ensures
        prefixed(value, prefixed(seq![c], r)) == prefixed(value.push(c), r),
{
    match r {
        LiteralScan::Closed { value: v, end } => {
            assert(value + (seq![c] + v) =~= value.push(c) + v);
        },
        _ => {},
    }
}

proof fn lemma_prefixed_empty(r: LiteralScan)
    ensures
        prefixed(Seq::empty(), r) == r,
{
    match r {
        LiteralScan::Closed { value: v, end } => {
            assert(Seq::<char>::empty() + v =~= v);
        },
        _ => {},
    }
}

/// Reads a literal body delimited by `quote` from character `start` of `chars`.
fn scan_chars(chars: &Vec<char>, quote: char, start: usize, start_byte: usize) -> (r: Scanned)
    requires
        start <= chars@.len(),
        start_byte as int == utf8_len(chars@.take(start as int)),
        utf8_len(chars@) <= usize::MAX,
        quote != '\\',
    ensures
        r.outcome() == scan_literal(chars@, quote, start as int),
        r matches Scanned::Closed { end, end_byte, .. } ==> end <= chars@.len() && end_byte as int
            == utf8_len(chars@.take(end as int)),
        r matches Scanned::BadEscape { at, .. } ==> at < chars@.len(),
{
    let n = chars.len();
    let mut value = String::new();
    let mut i = start;
    let mut b = start_byte;
    proof {
        lemma_prefixed_empty(scan_literal(chars@, quote, start as int));
    }
    while i < n
        invariant
            start <= i <= n,
            n == chars@.len(),
            b as int == utf8_len(chars@.take(i as int)),
            utf8_len(chars@) <= usize::MAX,
            quote != '\\',
            scan_literal(chars@, quote, start as int) == prefixed(
                value@,
                scan_literal(chars@, quote, i as int),
            ),
        decreases n - i,
    {
        let c = chars[i];
        proof {
            lemma_utf8_len_step(chars@, i as int);
            lemma_utf8_len_prefix_bound(chars@, i + 1);
        }
        if c == quote {
            let w = char_width(c);
            proof {
                lemma_prefixed_empty(LiteralScan::Closed { value: Seq::empty(), end: i + 1 });
                assert(value@ + Seq::<char>::empty() =~= value@);
            }
            return Scanned::Closed { value, end: i + 1, end_byte: b + w };
        }
        if c == '\\' {
            if i + 1 >= n {
                return Scanned::Unterminated;
            }
            let esc = chars[i + 1];
            if esc == '\\' || esc == '\'' || esc == '"' {
                proof {
                    lemma_prefixed_push(value@, esc, scan_literal(chars@, quote, i + 2));
                    lemma_utf8_len_step(chars@, i + 1);
                    lemma_utf8_len_prefix_bound(chars@, i + 2);
                }
                let w1 = char_width(c);
                let w2 = char_width(esc);
                push_char(&mut value, esc);
                b = b + w1 + w2;
                i = i + 2;
            } else {
                return Scanned::BadEscape { at: i, next: esc };
            }
        } else {
            proof {
                lemma_prefixed_push(value@, c, scan_literal(chars@, quote, i + 1));
            }
            let w = char_width(c);
            push_char(&mut value, c);
            b = b + w;
            i = i + 1;
        }
    }
    Scanned::Unterminated
}

/// The error for a backslash followed by `next`.
fn escape_error(at: usize, next: char) -> (e: LiteralError)
    ensures
        e.at == at,
        e.msg@ == escape_message(next),
{
    let mut msg = String::from_str("unrecognized escape `\\");
    push_char(&mut msg, next);
    msg.append(
        "` in a quoted literal; only `\\\\`, `\\'` and `\\\"` are escapes, so write `\\\\` for a literal backslash",
    );
    LiteralError { at, msg }
}

/// The error for a literal opening at `open` that never closes.
fn unterminated(src: &str, open: usize) -> (e: LiteralError)
    ensures
        e.at as int == char_offset_of(src@, open as int),
        e.msg@ == unterminated_message(),
{
    LiteralError { at: char_offset(src, open), msg: String::from_str("unterminated string literal") }
}

/// Read the literal opening at byte index `open`, resolving escapes.
///
/// Fails when `open` does not hold a quote, when the literal is unterminated,
/// or when a backslash is followed by anything outside the escape set.
pub fn read_literal(src: &str, open: usize) -> (r: Result<Literal, LiteralError>)
    ensures
        match r {
            Ok(lit) => read_literal_spec(src@, open as int) == Ok::<(Seq<char>, int), (int, Seq<char>)>((lit.value@, lit.end as int)),
            Err(e) => read_literal_spec(src@, open as int) == Err::<(Seq<char>, int), (int, Seq<char>)>((e.at as int, e.msg@)),
        },
{
    let bytes = src.as_bytes();
    proof {
        law_literal_opens_at_a_quote_byte(src@, open as int);
    }
    if !(open < bytes.len() && is_quote(bytes[open])) {
        // Not a quote: reported rather than asserted, so a caller that did not
        // dispatch on the quote first gets a diagnosis.
        return Err(
            LiteralError {
                at: char_offset(src, open),
                msg: String::from_str("expected a quoted literal here"),
            },
        );
    }
    let chars = chars_with_bound(src);
    let found = boundary_index(&chars, open);
    proof {
        let j = choose|j: int|
            is_boundary_at(src@, j, open as int) && j < src@.len() && is_quote_char(
                #[trigger] src@[j],
            );
        if let Some(k) = found {
            lemma_boundary_unique(src@, j, k as int, open as int);
        }
        let c = choose|c: int| is_boundary_at(src@, c, open as int);
        lemma_boundary_unique(src@, j, c, open as int);
    }
    let k = found.unwrap();
    let quote = chars[k];
    proof {
        lemma_utf8_len_step(src@, k as int);
        lemma_utf8_len_prefix_bound(src@, k + 1);
    }
    let w = char_width(quote);
    match scan_chars(&chars, quote, k + 1, open + w) {
        Scanned::Closed { value, end, end_byte } => Ok(Literal { value, end: end_byte }),
        Scanned::Unterminated => Err(unterminated(src, open)),
        Scanned::BadEscape { at, next } => Err(escape_error(at, next)),
    }
}

/// The byte index just past the literal opening at `open`, without keeping its
/// value. It shares `read_literal`'s escape rule, so a scanner stepping over a
/// literal agrees with the reader about where it closes.
pub fn skip_literal(src: &str, open: usize) -> (r: Result<usize, LiteralError>)
    ensures
        match r {
            Ok(end) => read_literal_spec(src@, open as int) matches Ok((_, e)) && e == end as int,
            Err(e) => read_literal_spec(src@, open as int) == Err::<(Seq<char>, int), (int, Seq<char>)>((e.at as int, e.msg@)),
        },
{
    match read_literal(src, open) {
        Ok(lit) => Ok(lit.end),
        Err(e) => Err(e),
    }
}


// ---------------------------------------------------------------------------
// A value that is one literal or one bare word.
// ---------------------------------------------------------------------------

/// The Unicode `White_Space` property, which `str::trim` strips.
pub open spec fn is_white_space(c: char) -> bool {
    let u = c as u32;
    ||| 0x09 <= u <= 0x0D
    ||| u == 0x20
    ||| u == 0x85
    ||| u == 0xA0
    ||| u == 0x1680
    ||| 0x2000 <= u <= 0x200A
    ||| u == 0x2028
    ||| u == 0x2029
    ||| u == 0x202F
    ||| u == 0x205F
    ||| u == 0x3000
}

/// How many white-space characters `s` opens with.
pub open spec fn leading_white_space(s: Seq<char>) -> nat
    decreases s.len(),
{
    if s.len() > 0 && is_white_space(s[0]) {
        1 + leading_white_space(s.drop_first())
    } else {
        0
    }
}

/// How many white-space characters `s` closes with.
pub open spec fn trailing_white_space(s: Seq<char>) -> nat
    decreases s.len(),
{
    if s.len() > 0 && is_white_space(s.last()) {
        1 + trailing_white_space(s.drop_last())
    } else {
        0
    }
}

/// `s` without its leading and trailing white space.
pub open spec fn trim_white_space(s: Seq<char>) -> Seq<char> {
    let rest = s.skip(leading_white_space(s) as int);
    rest.take(rest.len() - trailing_white_space(rest))
}

/// What reading `s` as one whole literal gives: `None` for a bare word (the
/// trimmed text does not open with a quote), the value when the trimmed text
/// is exactly one literal, and otherwise the character offset into `s` and
/// message of the fault.
pub open spec fn read_whole_literal_spec(s: Seq<char>) -> Result<
    Option<Seq<char>>,
    (int, Seq<char>),
> {
    let lead = leading_white_space(s) as int;
    let t = trim_white_space(s);
    if t.len() == 0 || !is_quote_char(t[0]) {
        Ok(None)
    } else {
        match scan_literal(t, t[0], 1) {
            LiteralScan::Closed { value, end } => if end == t.len() {
                Ok(Some(value))
            } else {
                Err((lead + end, trailing_message()))
            },
            LiteralScan::Unterminated => Err((lead, unterminated_message())),
            LiteralScan::BadEscape { at, next } => Err(
                (lead + at, escape_message(next)),
            ),
        }
    }
}

proof fn lemma_leading_white_space(s: Seq<char>, m: int)
    requires
        0 <= m <= s.len(),
        forall|j: int| 0 <= j < m ==> is_white_space(#[trigger] s[j]),
        m == s.len() || !is_white_space(s[m]),
    ensures
        leading_white_space(s) == m,
    decreases m,
{
    if m > 0 {
        let d = s.drop_first();
        assert forall|j: int| 0 <= j < m - 1 implies is_white_space(#[trigger] d[j]) by {
            assert(d[j] == s[j + 1]);
        }
        assert(m - 1 == d.len() || d[m - 1] == s[m]);
        lemma_leading_white_space(d, m - 1);
    }
}

proof fn lemma_trailing_white_space(s: Seq<char>, m: int)
    requires
        0 <= m <= s.len(),
        forall|j: int| m <= j < s.len() ==> is_white_space(#[trigger] s[j]),
        m == 0 || !is_white_space(s[m - 1]),
    ensures
        trailing_white_space(s) == s.len() - m,
    decreases s.len() - m,
{
    if m < s.len() {
        let d = s.drop_last();
        assert forall|j: int| m <= j < d.len() implies is_white_space(#[trigger] d[j]) by {
            assert(d[j] == s[j]);
        }
        assert(m == 0 || d[m - 1] == s[m - 1]);
        lemma_trailing_white_space(d, m);
    }
}

/// A stretch of `s` never takes more bytes than `s`.
proof fn lemma_utf8_len_subrange_bound(s: Seq<char>, lo: int, hi: int)
    requires
        0 <= lo <= hi <= s.len(),
    ensures
        utf8_len(s.subrange(lo, hi)) <= utf8_len(s),
{
    assert(s =~= s.take(lo) + s.subrange(lo, hi) + s.skip(hi));
    lemma_encode_utf8_concat(s.take(lo) + s.subrange(lo, hi), s.skip(hi));
    lemma_encode_utf8_concat(s.take(lo), s.subrange(lo, hi));
}

/// Whether `c` has the Unicode `White_Space` property, the set `str::trim`
/// strips.
fn char_is_white_space(c: char) -> (r: bool)
    ensures
        r == is_white_space(c),
{
    let u = c as u32;
    (0x09 <= u && u <= 0x0D) || u == 0x20 || u == 0x85 || u == 0xA0 || u == 0x1680 || (0x2000
        <= u && u <= 0x200A) || u == 0x2028 || u == 0x2029 || u == 0x202F || u == 0x205F || u
        == 0x3000
}

/// Read `src` as exactly one literal, or as a bare word.
///
/// `Some(value)` when the trimmed `src` is one complete literal; `None` when it
/// does not open with a quote, the bare form a stage argument may still use.
/// A literal that is unterminated, carries a bad escape, or ends before the
/// trimmed string does is an error, reported at a character offset into `src`.
pub fn read_whole_literal(src: &str) -> (r: Result<Option<String>, LiteralError>)
    ensures
        match r {
            Ok(None) => read_whole_literal_spec(src@) == Ok::<Option<Seq<char>>, (int, Seq<char>)>(None),
            Ok(Some(v)) => read_whole_literal_spec(src@) == Ok::<Option<Seq<char>>, (int, Seq<char>)>(Some(v@)),
            Err(e) => read_whole_literal_spec(src@) == Err::<Option<Seq<char>>, (int, Seq<char>)>((e.at as int, e.msg@)),
        },
{
    let chars = chars_with_bound(src);
    let n = chars.len();
    let mut lead: usize = 0;
    while lead < n && char_is_white_space(chars[lead])
        invariant
            0 <= lead <= n,
            n == chars@.len(),
            forall|j: int| 0 <= j < lead ==> is_white_space(#[trigger] chars@[j]),
        decreases n - lead,
    {
        lead = lead + 1;
    }
    proof {
        lemma_leading_white_space(src@, lead as int);
    }
    let ghost rest = src@.skip(lead as int);
    let mut hi: usize = n;
    while hi > lead && char_is_white_space(chars[hi - 1])
        invariant
            lead <= hi <= n,
            n == chars@.len(),
            rest == chars@.skip(lead as int),
            forall|j: int| hi <= j < n ==> is_white_space(#[trigger] chars@[j]),
        decreases hi - lead,
    {
        hi = hi - 1;
    }
    proof {
        assert forall|j: int| hi - lead <= j < rest.len() implies is_white_space(
            #[trigger] rest[j],
        ) by {
            assert(rest[j] == chars@[j + lead]);
        }
        if hi > lead {
            assert(rest[hi - lead - 1] == chars@[hi - 1]);
        }
        lemma_trailing_white_space(rest, hi - lead);
    }
    let mut t: Vec<char> = Vec::new();
    let mut i = lead;
    while i < hi
        invariant
            lead <= i <= hi <= n,
            n == chars@.len(),
            t@ == chars@.subrange(lead as int, i as int),
        decreases hi - i,
    {
        t.push(chars[i]);
        i = i + 1;
    }
    proof {
        assert(t@ =~= trim_white_space(src@));
        lemma_utf8_len_subrange_bound(src@, lead as int, hi as int);
    }
    if t.len() == 0 || !(t[0] == '"' || t[0] == '\'') {
        return Ok(None);
    }
    let quote = t[0];
    proof {
        lemma_utf8_len_step(t@, 0);
        assert(t@.take(0) =~= Seq::<char>::empty());
        assert(encode_utf8(Seq::<char>::empty()) =~= Seq::<u8>::empty());
        lemma_utf8_len_prefix_bound(t@, 1);
    }
    let w = char_width(quote);
    match scan_chars(&t, quote, 1, w) {
        Scanned::Closed { value, end, .. } => {
            if end == t.len() {
                Ok(Some(value))
            } else {
                Err(
                    LiteralError {
                        at: lead + end,
                        msg: String::from_str(
                            "trailing text after a quoted literal; a value is one literal or one bare word",
                        ),
                    },
                )
            }
        },
        Scanned::Unterminated => Err(
            LiteralError { at: lead, msg: String::from_str("unterminated string literal") },
        ),
        Scanned::BadEscape { at, next } => Err(escape_error(lead + at, next)),
    }
}


// ---------------------------------------------------------------------------
// Laws.
// ---------------------------------------------------------------------------

/// `v` written as the body of a literal delimited by `quote`: a backslash in
/// front of every backslash and every `quote`, every other character as is.
pub open spec fn escape_body(v: Seq<char>, quote: char) -> Seq<char>
    decreases v.len(),
{
    if v.len() == 0 {
        Seq::empty()
    } else {
        let c = v[0];
        (if c == '\\' || c == quote {
            seq!['\\', c]
        } else {
            seq![c]
        }) + escape_body(v.drop_first(), quote)
    }
}

/// `v` written as a whole literal delimited by `quote`.
pub open spec fn quote_literal(v: Seq<char>, quote: char) -> Seq<char> {
    seq![quote] + escape_body(v, quote) + seq![quote]
}

proof fn lemma_scan_escaped_body(p: Seq<char>, v: Seq<char>, quote: char, rest: Seq<char>)
    requires
        is_quote_char(quote),
    ensures
        scan_literal(p + escape_body(v, quote) + seq![quote] + rest, quote, p.len() as int)
            == (LiteralScan::Closed {
            value: v,
            end: p.len() + escape_body(v, quote).len() + 1int,
        }),
    decreases v.len(),
{
    let s = p + escape_body(v, quote) + seq![quote] + rest;
    let i = p.len() as int;
    if v.len() == 0 {
        assert(escape_body(v, quote) =~= Seq::<char>::empty());
        assert(s[i] == quote);
        assert(v =~= Seq::<char>::empty());
    } else {
        let c = v[0];
        let tail = v.drop_first();
        if c == '\\' || c == quote {
            let p2 = p + seq!['\\', c];
            assert(escape_body(v, quote) =~= seq!['\\', c] + escape_body(tail, quote));
            assert(s =~= p2 + escape_body(tail, quote) + seq![quote] + rest);
            assert(s[i] == '\\');
            assert(s[i + 1] == c);
            lemma_scan_escaped_body(p2, tail, quote, rest);
            assert(seq![c] + tail =~= v);
        } else {
            let p2 = p + seq![c];
            assert(escape_body(v, quote) =~= seq![c] + escape_body(tail, quote));
            assert(s =~= p2 + escape_body(tail, quote) + seq![quote] + rest);
            assert(s[i] == c);
            lemma_scan_escaped_body(p2, tail, quote, rest);
            assert(seq![c] + tail =~= v);
        }
    }
}

/// Any text can be written as a literal: quoting `v` with either quote,
/// escaping every backslash and every occurrence of that quote, reads back as
/// exactly `v`, and the literal ends just past its closing quote whatever
/// text follows it.
pub proof fn law_quoted_text_reads_back(v: Seq<char>, quote: char, rest: Seq<char>)
    requires
        is_quote_char(quote),
    ensures
        read_literal_spec(quote_literal(v, quote) + rest, 0) == Ok::<
            (Seq<char>, int),
            (int, Seq<char>),
        >((v, utf8_len(quote_literal(v, quote)) as int)),
{
    let q = quote_literal(v, quote);
    let s = q + rest;
    assert(s.take(0) =~= Seq::<char>::empty());
    assert(encode_utf8(Seq::<char>::empty()) =~= Seq::<u8>::empty());
    assert(is_boundary_at(s, 0, 0));
    law_char_offset_counts_characters(s, 0);
    assert(s[0] == quote);
    assert(literal_opens_at(s, 0));
    assert(s =~= seq![quote] + escape_body(v, quote) + seq![quote] + rest);
    lemma_scan_escaped_body(seq![quote], v, quote, rest);
    assert(s.take(q.len() as int) =~= q);
}

/// A quoted text is also one whole literal, whose value is the text.
pub proof fn law_quoted_text_is_a_whole_literal(v: Seq<char>, quote: char)
    requires
        is_quote_char(quote),
    ensures
        read_whole_literal_spec(quote_literal(v, quote)) == Ok::<
            Option<Seq<char>>,
            (int, Seq<char>),
        >(Some(v)),
{
    let q = quote_literal(v, quote);
    assert(q[0] == quote);
    lemma_leading_white_space(q, 0);
    assert(q.skip(0) =~= q);
    assert(q.last() == quote);
    lemma_trailing_white_space(q, q.len() as int);
    assert(q.take(q.len() as int) =~= q);
    assert(trim_white_space(q) =~= q);
    assert(q =~= seq![quote] + escape_body(v, quote) + seq![quote] + Seq::<char>::empty());
    lemma_scan_escaped_body(seq![quote], v, quote, Seq::<char>::empty());
}


proof fn lemma_scan_bounds(s: Seq<char>, quote: char, i: int)
    requires
        0 <= i,
    ensures
        scan_literal(s, quote, i) matches LiteralScan::Closed { end, .. } ==> i < end <= s.len(),
        scan_literal(s, quote, i) matches LiteralScan::BadEscape { at, .. } ==> i <= at && at + 1
            < s.len(),
    decreases s.len() - i,
{
    if i < s.len() && s[i] != quote {
        if s[i] == '\\' {
            if i + 1 < s.len() && is_escapable(s[i + 1]) {
                lemma_scan_bounds(s, quote, i + 2);
            }
        } else {
            lemma_scan_bounds(s, quote, i + 1);
        }
    }
}

/// Reading a whole value is reading the literal that opens the trimmed text:
/// a bare word when that text does not open with a quote; otherwise the
/// literal's errors, shifted past the leading white space, and its value only
/// when the literal ends where the trimmed text does, the rest being trailing
/// text reported at the character just past the literal.
pub proof fn law_whole_literal_is_the_trimmed_literal(s: Seq<char>)
    ensures
        ({
            let t = trim_white_space(s);
            (t.len() == 0 || !is_quote_char(t[0])) ==> read_whole_literal_spec(s) == Ok::<
                Option<Seq<char>>,
                (int, Seq<char>),
            >(None)
        }),
        ({
            let t = trim_white_space(s);
            let lead = leading_white_space(s) as int;
            (t.len() > 0 && is_quote_char(t[0])) ==> match read_literal_spec(t, 0) {
                Ok((v, end)) => read_whole_literal_spec(s) == if end == utf8_len(t) {
                    Ok::<Option<Seq<char>>, (int, Seq<char>)>(Some(v))
                } else {
                    Err::<Option<Seq<char>>, (int, Seq<char>)>(
                        (lead + char_offset_of(t, end), trailing_message()),
                    )
                },
                Err((at, m)) => read_whole_literal_spec(s) == Err::<
                    Option<Seq<char>>,
                    (int, Seq<char>),
                >((lead + at, m)),
            }
        }),
{
    let t = trim_white_space(s);
    if t.len() > 0 && is_quote_char(t[0]) {
        assert(t.take(0) =~= Seq::<char>::empty());
        assert(encode_utf8(Seq::<char>::empty()) =~= Seq::<u8>::empty());
        assert(is_boundary_at(t, 0, 0));
        law_char_offset_counts_characters(t, 0);
        assert(literal_opens_at(t, 0));
        lemma_scan_bounds(t, t[0], 1);
        match scan_literal(t, t[0], 1) {
            LiteralScan::Closed { value, end } => {
                assert(t.take(t.len() as int) =~= t);
                law_char_offset_counts_characters(t, end);
                if end < t.len() {
                    lemma_utf8_len_strictly_increasing(t, end, t.len() as int);
                }
            },
            _ => {},
        }
    }
}

/// Facts about the bytes of one character's encoding: its first byte is a
/// quote byte exactly when the character is a quote, and every later byte is
/// a continuation byte, at or above 0x80.
proof fn lemma_scalar_bytes(c: char)
    ensures
        (encode_scalar(c as u32)[0] == 0x22u8 || encode_scalar(c as u32)[0] == 0x27u8)
            <==> is_quote_char(c),
        forall|d: int|
            1 <= d < encode_scalar(c as u32).len() ==> #[trigger] encode_scalar(c as u32)[d]
                >= 0x80u8,
{
    char_is_scalar(c);
    let u = c as u32;
    assert(('"' as u32) == 0x22u32);
    assert(('\'' as u32) == 0x27u32);
    if has_width_1_encoding(u) {
        assert(u <= 0x7F ==> ((u & 0x7F) as u8) as u32 == u) by (bit_vector);
    } else if has_width_2_encoding(u) {
        let x = ((u >> 6) & 0x1F) as u8;
        let y = (u & 0x3F) as u8;
        assert((0xC0u8 | x) >= 0xC0u8) by (bit_vector);
        assert((0x80u8 | y) >= 0x80u8) by (bit_vector);
    } else if has_width_3_encoding(u) {
        let x = ((u >> 12) & 0x0F) as u8;
        let y = ((u >> 6) & 0x3F) as u8;
        let z = (u & 0x3F) as u8;
        assert((0xE0u8 | x) >= 0xC0u8) by (bit_vector);
        assert((0x80u8 | y) >= 0x80u8) by (bit_vector);
        assert((0x80u8 | z) >= 0x80u8) by (bit_vector);
    } else {
        let x = ((u >> 18) & 0x7) as u8;
        let w = ((u >> 12) & 0x3F) as u8;
        let y = ((u >> 6) & 0x3F) as u8;
        let z = (u & 0x3F) as u8;
        assert((0xF0u8 | x) >= 0xC0u8) by (bit_vector);
        assert((0x80u8 | w) >= 0x80u8) by (bit_vector);
        assert((0x80u8 | y) >= 0x80u8) by (bit_vector);
        assert((0x80u8 | z) >= 0x80u8) by (bit_vector);
    }
}

/// The byte `d` into character `k`'s encoding is byte `d` of that
/// character's own encoding.
proof fn lemma_byte_of_char(s: Seq<char>, k: int, d: int)
    requires
        0 <= k < s.len(),
        0 <= d < encode_scalar(s[k] as u32).len(),
    ensures
        encode_utf8(s)[utf8_len(s.take(k)) + d] == encode_scalar(s[k] as u32)[d],
{
    assert(s =~= s.take(k) + s.skip(k));
    lemma_encode_utf8_concat(s.take(k), s.skip(k));
    assert(s.skip(k)[0] == s[k]);
    assert(s.skip(k).drop_first() =~= s.skip(k + 1));
    assert(encode_utf8(s.skip(k)) == encode_scalar(s[k] as u32) + encode_utf8(s.skip(k + 1)));
}

/// The character whose encoding holds byte `at`.
proof fn lemma_locate_byte(s: Seq<char>, at: int, k: int) -> (j: int)
    requires
        0 <= k < s.len(),
        utf8_len(s.take(k)) <= at < utf8_len(s),
    ensures
        k <= j < s.len(),
        utf8_len(s.take(j)) <= at < utf8_len(s.take(j + 1)),
    decreases s.len() - k,
{
    lemma_utf8_len_step(s, k);
    if at < utf8_len(s.take(k + 1)) {
        k
    } else {
        assert(s.take(s.len() as int) =~= s);
        if k + 1 == s.len() {
            assert(false);
        }
        lemma_locate_byte(s, at, k + 1)
    }
}

/// A literal opens at byte index `open` exactly when the source's byte there
/// is a quote byte: the character model agrees with dispatching on the byte.
pub proof fn law_literal_opens_at_a_quote_byte(s: Seq<char>, open: int)
    ensures
        literal_opens_at(s, open) <==> (0 <= open < utf8_len(s) && (encode_utf8(s)[open]
            == 0x22u8 || encode_utf8(s)[open] == 0x27u8)),
{
    if literal_opens_at(s, open) {
        let k = choose|k: int| is_boundary_at(s, k, open) && k < s.len() && is_quote_char(#[trigger] s[k]);
        lemma_utf8_len_step(s, k);
        lemma_scalar_width(s[k]);
        lemma_utf8_len_prefix_bound(s, k + 1);
        lemma_byte_of_char(s, k, 0);
        lemma_scalar_bytes(s[k]);
    }
    if 0 <= open < utf8_len(s) && (encode_utf8(s)[open] == 0x22u8 || encode_utf8(s)[open] == 0x27u8) {
        assert(s.take(0) =~= Seq::<char>::empty());
        assert(encode_utf8(Seq::<char>::empty()) =~= Seq::<u8>::empty());
        assert(s.len() > 0) by {
            if s.len() == 0 {
                assert(s =~= Seq::<char>::empty());
            }
        }
        let k = lemma_locate_byte(s, open, 0);
        lemma_utf8_len_step(s, k);
        let d = open - utf8_len(s.take(k));
        lemma_byte_of_char(s, k, d);
        lemma_scalar_bytes(s[k]);
        if d > 0 {
            assert(encode_scalar(s[k] as u32)[d] >= 0x80u8);
        }
        assert(is_boundary_at(s, k, open));
        assert(literal_opens_at(s, open));
    }
}


/// A literal that reads ends past the byte index it opens at, and no later
/// than the end of the source.
pub proof fn law_literal_ends_within_the_source(s: Seq<char>, open: int)
    ensures
        read_literal_spec(s, open) matches Ok((_, end)) ==> open < end <= utf8_len(s),
{
    if literal_opens_at(s, open) {
        let k = choose|k: int| is_boundary_at(s, k, open) && k < s.len() && is_quote_char(#[trigger] s[k]);
        lemma_boundary_unique(s, k, char_offset_of(s, open), open);
        lemma_scan_bounds(s, s[k], k + 1);
        if let LiteralScan::Closed { value, end } = scan_literal(s, s[k], k + 1) {
            lemma_utf8_len_strictly_increasing(s, k, end);
            lemma_utf8_len_prefix_bound(s, end);
        }
    }
}


/// `r` with every character index moved `by` characters later.
pub open spec fn shifted(r: LiteralScan, by: int) -> LiteralScan {
    match r {
        LiteralScan::Closed { value, end } => LiteralScan::Closed { value, end: end + by },
        LiteralScan::Unterminated => LiteralScan::Unterminated,
        LiteralScan::BadEscape { at, next } => LiteralScan::BadEscape { at: at + by, next },
    }
}

proof fn lemma_scan_after_prefix(p: Seq<char>, s: Seq<char>, quote: char, i: int)
    requires
        0 <= i,
    ensures
        scan_literal(p + s, quote, p.len() + i) == shifted(scan_literal(s, quote, i), p.len() as int),
    decreases s.len() - i,
{
    let t = p + s;
    let j = p.len() + i;
    if i < s.len() {
        assert(t[j] == s[i]);
        if i + 1 < s.len() {
            assert(t[j + 1] == s[i + 1]);
        }
        if s[i] != quote {
            if s[i] == '\\' {
                if i + 1 < s.len() && is_escapable(s[i + 1]) {
                    lemma_scan_after_prefix(p, s, quote, i + 2);
                }
            } else {
                lemma_scan_after_prefix(p, s, quote, i + 1);
            }
        }
    }
}

proof fn lemma_scan_before_suffix(s: Seq<char>, r: Seq<char>, quote: char, i: int)
    requires
        0 <= i,
        scan_literal(s, quote, i) is Closed,
    ensures
        scan_literal(s + r, quote, i) == scan_literal(s, quote, i),
    decreases s.len() - i,
{
    let t = s + r;
    assert(i < s.len());
    assert(t[i] == s[i]);
    if s[i] != quote {
        if s[i] == '\\' {
            assert(i + 1 < s.len());
            assert(t[i + 1] == s[i + 1]);
            lemma_scan_before_suffix(s, r, quote, i + 2);
        } else {
            lemma_scan_before_suffix(s, r, quote, i + 1);
        }
    }
}

/// Reading ignores what precedes the literal: read inside a longer text, it
/// gives the same value and message, with the byte index moved by the bytes
/// and the character offset moved by the characters placed in front.
pub proof fn law_reading_ignores_what_precedes(p: Seq<char>, s: Seq<char>, open: int)
    requires
        literal_opens_at(s, open),
    ensures
        read_literal_spec(p + s, utf8_len(p) + open) == match read_literal_spec(s, open) {
            Ok((v, end)) => Ok::<(Seq<char>, int), (int, Seq<char>)>((v, utf8_len(p) + end)),
            Err((at, m)) => Err::<(Seq<char>, int), (int, Seq<char>)>((p.len() + at, m)),
        },
{
    let t = p + s;
    let k = choose|k: int| is_boundary_at(s, k, open) && k < s.len() && is_quote_char(#[trigger] s[k]);
    law_char_offset_counts_characters(s, k);
    assert(t.take(p.len() + k) =~= p + s.take(k));
    lemma_encode_utf8_concat(p, s.take(k));
    assert(is_boundary_at(t, p.len() + k, utf8_len(p) + open));
    law_char_offset_counts_characters(t, p.len() + k);
    assert(t[p.len() + k] == s[k]);
    assert(literal_opens_at(t, utf8_len(p) + open));
    lemma_scan_after_prefix(p, s, s[k], k + 1);
    lemma_scan_bounds(s, s[k], k + 1);
    if let LiteralScan::Closed { value, end } = scan_literal(s, s[k], k + 1) {
        assert(t.take(p.len() + end) =~= p + s.take(end));
        lemma_encode_utf8_concat(p, s.take(end));
    }
}

/// Reading ignores what follows a literal that closes: appending text after
/// the source does not change the value or where the literal ends.
pub proof fn law_reading_ignores_what_follows(s: Seq<char>, r: Seq<char>, open: int)
    requires
        read_literal_spec(s, open) is Ok,
    ensures
        read_literal_spec(s + r, open) == read_literal_spec(s, open),
{
    let t = s + r;
    let k = choose|k: int| is_boundary_at(s, k, open) && k < s.len() && is_quote_char(#[trigger] s[k]);
    law_char_offset_counts_characters(s, k);
    assert(t.take(k) =~= s.take(k));
    assert(is_boundary_at(t, k, open));
    law_char_offset_counts_characters(t, k);
    assert(t[k] == s[k]);
    assert(literal_opens_at(t, open));
    lemma_scan_bounds(s, s[k], k + 1);
    lemma_scan_before_suffix(s, r, s[k], k + 1);
    if let LiteralScan::Closed { value, end } = scan_literal(s, s[k], k + 1) {
        assert(t.take(end) =~= s.take(end));
    }
}


/// A quoted text framed by white space is still one whole literal: the
/// framing is trimmed and the value read back is the text.
pub proof fn law_framed_quoted_text_is_a_whole_literal(
    v: Seq<char>,
    quote: char,
    before: Seq<char>,
    after: Seq<char>,
)
    requires
        is_quote_char(quote),
        forall|i: int| 0 <= i < before.len() ==> is_white_space(#[trigger] before[i]),
        forall|i: int| 0 <= i < after.len() ==> is_white_space(#[trigger] after[i]),
    ensures
        read_whole_literal_spec(before + quote_literal(v, quote) + after) == Ok::<
            Option<Seq<char>>,
            (int, Seq<char>),
        >(Some(v)),
{
    let q = quote_literal(v, quote);
    let s = before + q + after;
    assert(('"' as u32) == 0x22u32);
    assert(('\'' as u32) == 0x27u32);
    assert(q[0] == quote);
    assert(q.last() == quote);
    assert forall|j: int| 0 <= j < before.len() implies is_white_space(#[trigger] s[j]) by {
        assert(s[j] == before[j]);
    }
    assert(s[before.len() as int] == quote);
    lemma_leading_white_space(s, before.len() as int);
    let rest = s.skip(before.len() as int);
    assert(rest =~= q + after);
    assert forall|j: int| q.len() <= j < rest.len() implies is_white_space(#[trigger] rest[j]) by {
        assert(rest[j] == after[j - q.len()]);
    }
    assert(rest[q.len() - 1] == quote);
    lemma_trailing_white_space(rest, q.len() as int);
    assert(rest.take(q.len() as int) =~= q);
    assert(trim_white_space(s) =~= q);
    assert(q =~= seq![quote] + escape_body(v, quote) + seq![quote] + Seq::<char>::empty());
    lemma_scan_escaped_body(seq![quote], v, quote, Seq::<char>::empty());
}

/// `r` with `x` and then `y` in front of its value is `r` with `x + y` in
/// front.
proof fn lemma_prefixed_concat(x: Seq<char>, y: Seq<char>, r: LiteralScan)
    ensures
        prefixed(x, prefixed(y, r)) == prefixed(x + y, r),
{
    match r {
        LiteralScan::Closed { value: v, end } => {
            assert(x + (y + v) =~= (x + y) + v);
        },
        _ => {},
    }
}

/// A stretch holding neither a backslash nor the closing quote is taken as
/// content, character for character.
proof fn lemma_scan_plain(p: Seq<char>, a: Seq<char>, tail: Seq<char>, quote: char)
    requires
        forall|j: int| 0 <= j < a.len() ==> (#[trigger] a[j]) != '\\' && a[j] != quote,
    ensures
        scan_literal(p + a + tail, quote, p.len() as int) == prefixed(
            a,
            scan_literal(p + a + tail, quote, (p.len() + a.len()) as int),
        ),
    decreases a.len(),
{
    let s = p + a + tail;
    if a.len() == 0 {
        assert(p + a =~= p);
        lemma_prefixed_empty(scan_literal(s, quote, p.len() as int));
    } else {
        let c = a[0];
        let a2 = a.drop_first();
        let p2 = p + seq![c];
        assert(s =~= p2 + a2 + tail);
        assert(s[p.len() as int] == c);
        assert forall|j: int| 0 <= j < a2.len() implies (#[trigger] a2[j]) != '\\' && a2[j]
            != quote by {
            assert(a2[j] == a[j + 1]);
        }
        lemma_scan_plain(p2, a2, tail, quote);
        lemma_prefixed_concat(seq![c], a2, scan_literal(s, quote, (p.len() + a.len()) as int));
        assert(seq![c] + a2 =~= a);
    }
}

/// Each character of `v` with a backslash in front of it.
pub open spec fn backslashed(v: Seq<char>) -> Seq<char>
    decreases v.len(),
{
    if v.len() == 0 {
        Seq::empty()
    } else {
        seq!['\\', v[0]] + backslashed(v.drop_first())
    }
}

/// A run of backslash pairs whose second characters are backslashes and
/// quotes of either kind reads as those second characters.
proof fn lemma_scan_backslashed(p: Seq<char>, v: Seq<char>, tail: Seq<char>, quote: char)
    requires
        quote != '\\',
        forall|j: int|
            0 <= j < v.len() ==> (#[trigger] v[j]) == '\\' || v[j] == '\'' || v[j] == '"',
    ensures
        scan_literal(p + backslashed(v) + tail, quote, p.len() as int) == prefixed(
            v,
            scan_literal(p + backslashed(v) + tail, quote, (p.len() + backslashed(v).len()) as int),
        ),
    decreases v.len(),
{
    let s = p + backslashed(v) + tail;
    if v.len() == 0 {
        assert(backslashed(v) =~= Seq::<char>::empty());
        lemma_prefixed_empty(scan_literal(s, quote, p.len() as int));
    } else {
        let c = v[0];
        let v2 = v.drop_first();
        let p2 = p + seq!['\\', c];
        assert(backslashed(v) =~= seq!['\\', c] + backslashed(v2));
        assert(s =~= p2 + backslashed(v2) + tail);
        assert(s[p.len() as int] == '\\');
        assert(s[p.len() + 1int] == c);
        assert forall|j: int| 0 <= j < v2.len() implies (#[trigger] v2[j]) == '\\' || v2[j]
            == '\'' || v2[j] == '"' by {
            assert(v2[j] == v[j + 1]);
        }
        lemma_scan_backslashed(p2, v2, tail, quote);
        lemma_prefixed_concat(
            seq![c],
            v2,
            scan_literal(s, quote, (p.len() + backslashed(v).len()) as int),
        );
        assert(seq![c] + v2 =~= v);
    }
}

/// The literal `open` starts at character 0 of `s` when `s` opens with a quote.
proof fn lemma_opens_at_start(s: Seq<char>)
    requires
        s.len() > 0,
        is_quote_char(s[0]),
    ensures
        literal_opens_at(s, 0),
        char_offset_of(s, 0) == 0,
{
    assert(s.take(0) =~= Seq::<char>::empty());
    assert(encode_utf8(Seq::<char>::empty()) =~= Seq::<u8>::empty());
    assert(is_boundary_at(s, 0, 0));
    law_char_offset_counts_characters(s, 0);
}

/// The escape rule does not depend on the delimiter: inside a literal of
/// either quote style, after any run of plain content, a backslash in front of
/// a backslash, a `'` or a `"` reads as that one character. So `'say \"hi\"'`
/// reads as `say "hi"` and `"it\'s"` as `it's`, and the literal ends just past
/// its closing quote whatever follows it.
pub proof fn law_backslash_escapes_read_as_themselves(
    quote: char,
    a: Seq<char>,
    v: Seq<char>,
    rest: Seq<char>,
)
    requires
        is_quote_char(quote),
        forall|j: int| 0 <= j < a.len() ==> (#[trigger] a[j]) != '\\' && a[j] != quote,
        forall|j: int|
            0 <= j < v.len() ==> (#[trigger] v[j]) == '\\' || v[j] == '\'' || v[j] == '"',
    ensures
        read_literal_spec(seq![quote] + a + backslashed(v) + seq![quote] + rest, 0) == Ok::<
            (Seq<char>, int),
            (int, Seq<char>),
        >((a + v, utf8_len(seq![quote] + a + backslashed(v) + seq![quote]) as int)),
{
    let lit = seq![quote] + a + backslashed(v) + seq![quote];
    let s = lit + rest;
    let b = backslashed(v);
    lemma_opens_at_start(s);
    assert(s =~= seq![quote] + a + (b + seq![quote] + rest));
    lemma_scan_plain(seq![quote], a, b + seq![quote] + rest, quote);
    assert(s =~= (seq![quote] + a) + b + (seq![quote] + rest));
    lemma_scan_backslashed(seq![quote] + a, v, seq![quote] + rest, quote);
    let k: int = 1int + a.len() + b.len();
    assert(s[k] == quote);
    let closed = LiteralScan::Closed { value: Seq::empty(), end: k + 1 };
    assert(scan_literal(s, quote, k) == closed);
    lemma_prefixed_concat(a, v, closed);
    assert(a + v + Seq::<char>::empty() =~= a + v);
    assert(s.take(k + 1) =~= lit);
}

/// Only the three escapes exist: inside a literal of either quote style, after
/// any run of plain content, a backslash followed by any character other than
/// a backslash, `'` or `"` is an error reported at the backslash that names
/// the character, whatever follows. So `'a\.b'` is refused at the backslash,
/// and a pattern that needs a backslash has to double it.
pub proof fn law_other_backslashes_are_refused(
    quote: char,
    a: Seq<char>,
    c: char,
    rest: Seq<char>,
)
    requires
        is_quote_char(quote),
        forall|j: int| 0 <= j < a.len() ==> (#[trigger] a[j]) != '\\' && a[j] != quote,
        c != '\\' && c != '\'' && c != '"',
    ensures
        read_literal_spec(seq![quote] + a + seq!['\\', c] + rest, 0) == Err::<
            (Seq<char>, int),
            (int, Seq<char>),
        >((a.len() + 1int, escape_message(c))),
{
    let s = seq![quote] + a + seq!['\\', c] + rest;
    lemma_opens_at_start(s);
    assert(s =~= seq![quote] + a + (seq!['\\', c] + rest));
    lemma_scan_plain(seq![quote], a, seq!['\\', c] + rest, quote);
    let k: int = 1int + a.len();
    assert(s[k] == '\\');
    assert(s[k + 1] == c);
}

/// The white space trimmed around a value is exactly Unicode `White_Space`,
/// the set `str::trim` strips: tab, line feed, vertical tab, form feed,
/// carriage return, space, next line, no-break space, ogham space mark, the
/// spaces U+2000 to U+200A, line and paragraph separators, narrow no-break
/// space, medium mathematical space and ideographic space.
pub proof fn law_white_space_is_unicode_white_space(c: char)
    ensures
        is_white_space(c) <==> (c == '\t' || c == '\n' || c == '\u{0B}' || c == '\u{0C}' || c
            == '\r' || c == ' ' || c == '\u{85}' || c == '\u{A0}' || c == '\u{1680}' || c
            == '\u{2000}' || c == '\u{2001}' || c == '\u{2002}' || c == '\u{2003}' || c
            == '\u{2004}' || c == '\u{2005}' || c == '\u{2006}' || c == '\u{2007}' || c
            == '\u{2008}' || c == '\u{2009}' || c == '\u{200A}' || c == '\u{2028}' || c
            == '\u{2029}' || c == '\u{202F}' || c == '\u{205F}' || c == '\u{3000}'),
{
    char_is_scalar(c);
}

/// A quoted text framed by ASCII white space, line breaks among it (`\r\n`
/// from a file written on Windows, say), is one whole literal whose value is
/// the text.
pub proof fn law_line_breaks_frame_a_whole_literal(
    v: Seq<char>,
    quote: char,
    before: Seq<char>,
    after: Seq<char>,
)
    requires
        is_quote_char(quote),
        forall|i: int|
            0 <= i < before.len() ==> (#[trigger] before[i]) == ' ' || before[i] == '\t'
                || before[i] == '\n' || before[i] == '\u{0B}' || before[i] == '\u{0C}'
                || before[i] == '\r',
        forall|i: int|
            0 <= i < after.len() ==> (#[trigger] after[i]) == ' ' || after[i] == '\t'
                || after[i] == '\n' || after[i] == '\u{0B}' || after[i] == '\u{0C}'
                || after[i] == '\r',
    ensures
        read_whole_literal_spec(before + quote_literal(v, quote) + after) == Ok::<
            Option<Seq<char>>,
            (int, Seq<char>),
        >(Some(v)),
{
    assert forall|i: int| 0 <= i < before.len() implies is_white_space(#[trigger] before[i]) by {
        law_white_space_is_unicode_white_space(before[i]);
    }
    assert forall|i: int| 0 <= i < after.len() implies is_white_space(#[trigger] after[i]) by {
        law_white_space_is_unicode_white_space(after[i]);
    }
    law_framed_quoted_text_is_a_whole_literal(v, quote, before, after);
}

} // verus!
