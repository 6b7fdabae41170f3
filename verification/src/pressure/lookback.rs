//! What to compare against, as a caller writes it.
use vstd::prelude::*;

use super::config::PressureConfig;
use crate::outside::{quoted, quoted_text};
use crate::text::{decimal, decimal_text, mentions, push_decimal};

verus! {

/// What a caller asked to compare against.
#[derive(Clone, Copy, Debug, PartialEq, Eq, Structural)]
pub enum Lookback {
    /// This many seconds ago.
    Ago(u64),
    /// Since the earliest open episode started.
    Episode,
}

/// The shortest lookback that can hold two samples.
pub const MIN_LOOKBACK_SECS: u64 = 60;

/// The characters Unicode calls white space.
pub open spec fn is_space(c: char) -> bool {
    let n = c as u32;
    ||| 0x9 <= n <= 0xD
    ||| n == 0x20
    ||| n == 0x85
    ||| n == 0xA0
    ||| n == 0x1680
    ||| 0x2000 <= n <= 0x200A
    ||| n == 0x2028
    ||| n == 0x2029
    ||| n == 0x202F
    ||| n == 0x205F
    ||| n == 0x3000
}

fn space(c: char) -> (r: bool)
    ensures
        r == is_space(c),
{
    let n: u32 = c as u32;
    (0x9 <= n && n <= 0xD) || n == 0x20 || n == 0x85 || n == 0xA0 || n == 0x1680 || (0x2000 <= n
        && n <= 0x200A) || n == 0x2028 || n == 0x2029 || n == 0x202F || n == 0x205F || n == 0x3000
}

/// A text without the white space before it.
pub open spec fn unindented(s: Seq<char>) -> Seq<char>
    decreases s.len(),
{
    if s.len() > 0 && is_space(s[0]) {
        unindented(s.drop_first())
    } else {
        s
    }
}

/// A text without the white space behind it.
pub open spec fn untailed(s: Seq<char>) -> Seq<char>
    decreases s.len(),
{
    if s.len() > 0 && is_space(s.last()) {
        untailed(s.drop_last())
    } else {
        s
    }
}

/// A text without the white space around it.
pub open spec fn trimmed(s: Seq<char>) -> Seq<char> {
    untailed(unindented(s))
}

fn trim(s: &str) -> (r: &str)
    ensures
        r@ == trimmed(s@),
{
    let n: usize = s.unicode_len();
    let mut lo: usize = 0;
    assert(s@.skip(0) =~= s@);
    while lo < n && space(s.get_char(lo))
        invariant
            lo <= n,
            n == s@.len(),
            unindented(s@) == unindented(s@.skip(lo as int)),
        decreases n - lo,
    {
        assert(s@.skip(lo as int)[0] == s@[lo as int]);
        assert(s@.skip(lo as int).drop_first() =~= s@.skip(lo + 1));
        lo = lo + 1;
    }
    let ghost rest = unindented(s@);
    assert(rest == s@.skip(lo as int));
    let mut hi: usize = n;
    assert(s@.subrange(lo as int, n as int) =~= rest);
    while hi > lo && space(s.get_char(hi - 1))
        invariant
            lo <= hi <= n,
            n == s@.len(),
            untailed(rest) == untailed(s@.subrange(lo as int, hi as int)),
        decreases hi,
    {
        let ghost now = s@.subrange(lo as int, hi as int);
        assert(now.last() == s@[hi - 1]);
        assert(now.drop_last() =~= s@.subrange(lo as int, hi - 1));
        hi = hi - 1;
    }
    proof {
        let now = s@.subrange(lo as int, hi as int);
        if hi > lo {
            assert(now.last() == s@[hi - 1]);
        }
        assert(untailed(now) == now);
    }
    s.substring_char(lo, hi)
}

/// An ASCII letter in lower case; anything else as it is.
pub open spec fn lower(c: char) -> char {
    if 'A' <= c <= 'Z' {
        ((c as u32) + 32) as char
    } else {
        c
    }
}

/// Whether a text is a word, the case of ASCII letters aside.
pub open spec fn reads(s: Seq<char>, word: Seq<char>) -> bool {
    &&& s.len() == word.len()
    &&& forall|i: int| 0 <= i < s.len() ==> lower(#[trigger] s[i]) == lower(word[i])
}

fn lower_code(c: char) -> (r: u32)
    ensures
        r == lower(c) as u32,
{
    let n: u32 = c as u32;
    if 'A' <= c && c <= 'Z' {
        n + 32
    } else {
        n
    }
}

fn reads_as(s: &str, word: &str) -> (r: bool)
    ensures
        r == reads(s@, word@),
{
    let n: usize = s.unicode_len();
    if n != word.unicode_len() {
        return false;
    }
    let mut i: usize = 0;
    while i < n
        invariant
            i <= n,
            n == s@.len(),
            n == word@.len(),
            forall|j: int| 0 <= j < i ==> lower(#[trigger] s@[j]) == lower(word@[j]),
        decreases n - i,
    {
        if lower_code(s.get_char(i)) != lower_code(word.get_char(i)) {
            assert(lower(s@[i as int]) != lower(word@[i as int]));
            return false;
        }
        assert(lower(s@[i as int]) == lower(word@[i as int]));
        i = i + 1;
    }
    true
}

pub open spec fn is_digit(c: char) -> bool {
    '0' <= c <= '9'
}

pub open spec fn all_digits(s: Seq<char>) -> bool {
    forall|i: int| 0 <= i < s.len() ==> is_digit(#[trigger] s[i])
}

/// The number some digits stand for.
pub open spec fn digits_value(s: Seq<char>) -> nat
    decreases s.len(),
{
    if s.len() == 0 {
        0
    } else {
        digits_value(s.drop_last()) * 10 + ((s.last() as u32) - 48) as nat
    }
}

/// A text without a plus sign before it.
pub open spec fn unsigned(s: Seq<char>) -> Seq<char> {
    if s.len() > 0 && s[0] == '+' {
        s.skip(1)
    } else {
        s
    }
}

/// The whole number a text stands for: digits, with or without a plus sign, that
/// fit into 64 bits.
pub open spec fn number(s: Seq<char>) -> Option<u64> {
    let body = unsigned(s);
    if body.len() > 0 && all_digits(body) && digits_value(body) <= u64::MAX {
        Some(digits_value(body) as u64)
    } else {
        None
    }
}

proof fn lemma_digits_grow(s: Seq<char>, i: int)
    requires
        0 <= i <= s.len(),
    ensures
        digits_value(s.take(i)) <= digits_value(s),
    decreases s.len() - i,
{
    if i < s.len() {
        lemma_digits_grow(s, i + 1);
        assert(s.take(i + 1).drop_last() =~= s.take(i));
    } else {
        assert(s.take(i) =~= s);
    }
}

fn parse_number(s: &str) -> (r: Option<u64>)
    ensures
        r == number(s@),
{
    let n: usize = s.unicode_len();
    let start: usize = if n > 0 && s.get_char(0) == '+' {
        1
    } else {
        0
    };
    let ghost body = unsigned(s@);
    assert(body =~= s@.skip(start as int));
    if start == n {
        return None;
    }
    let mut value: u64 = 0;
    let mut i: usize = start;
    assert(body.take(0) =~= Seq::empty());
    while i < n
        invariant
            start <= i <= n,
            start < n,
            n == s@.len(),
            body == s@.skip(start as int),
            body == unsigned(s@),
            value == digits_value(body.take(i - start)),
            forall|j: int| 0 <= j < i - start ==> is_digit(#[trigger] body[j]),
        decreases n - i,
    {
        let c = s.get_char(i);
        let ghost k = i - start;
        proof {
            assert(body[k] == c);
            assert(body.take(k + 1).drop_last() =~= body.take(k));
            assert(body.take(k + 1).last() == c);
            lemma_digits_grow(body, k + 1);
        }
        if c < '0' || c > '9' {
            assert(!is_digit(body[k]));
            return None;
        }
        let d: u64 = (c as u32 - 48) as u64;
        if value > (u64::MAX - d) / 10 {
            assert(value * 10 + d > u64::MAX);
            return None;
        }
        value = value * 10 + d;
        i = i + 1;
    }
    assert(body.take(n - start) =~= body);
    Some(value)
}

/// The seconds a unit stands for: 1 where there is none.
pub open spec fn unit_secs(s: Seq<char>) -> u64 {
    if s.len() == 0 {
        1
    } else if s.last() == 'm' {
        60
    } else if s.last() == 'h' {
        3600
    } else if s.last() == 'd' {
        86_400
    } else {
        1
    }
}

/// A text without its unit.
pub open spec fn without_unit(s: Seq<char>) -> Seq<char> {
    if s.len() > 0 && (s.last() == 's' || s.last() == 'm' || s.last() == 'h' || s.last() == 'd') {
        s.drop_last()
    } else {
        s
    }
}

/// The seconds a text asks for, as many as there are at most.
pub open spec fn asked_secs(s: Seq<char>) -> Option<u64> {
    match number(without_unit(s)) {
        Some(n) => if n == 0 {
            None
        } else if n * unit_secs(s) > u64::MAX {
            Some(u64::MAX)
        } else {
            Some((n * unit_secs(s)) as u64)
        },
        None => None,
    }
}

/// What a parameter means, or why it means nothing.
pub open spec fn meaning(raw: Seq<char>, config: PressureConfig) -> Result<Lookback, Seq<char>> {
    let s = trimmed(raw);
    if reads(s, "episode"@) {
        Ok(Lookback::Episode)
    } else {
        match asked_secs(s) {
            None => Err(
                "vs must be a lookback such as 30m, 1h or 24h, or `episode` (got "@ + quoted_text(
                    raw,
                ) + ")"@,
            ),
            Some(secs) => if secs < MIN_LOOKBACK_SECS {
                Err("vs must be at least 60s — two samples — (got "@ + quoted_text(raw) + ")"@)
            } else if secs > config.deltas_max_lookback_secs {
                Err(
                    "vs must not exceed "@ + span_words(config.deltas_max_lookback_secs)
                        + " — the raw retention; older history is rollups with no census behind it (got "@
                        + quoted_text(raw) + ")"@,
                )
            } else {
                Ok(Lookback::Ago(secs))
            },
        }
    }
}

/// Parse a `vs` parameter: `30m`, `1h`, `24h`, `90s`, bare seconds, or `episode`.
///
/// Above the ceiling the answer is a refusal that names the bound, never a
/// clamp: who asks for a week and silently gets a day reasons about a window it
/// did not get.
pub fn parse_lookback(raw: &str, config: &PressureConfig) -> (r: Result<Lookback, String>)
    ensures
        match r {
            Ok(l) => meaning(raw@, *config) == Ok::<Lookback, Seq<char>>(l),
            Err(e) => meaning(raw@, *config) == Err::<Lookback, Seq<char>>(e@),
        },
{
    let s = trim(raw);
    if reads_as(s, "episode") {
        return Ok(Lookback::Episode);
    }
    let n: usize = s.unicode_len();
    let mut unit: u64 = 1;
    let mut digits = s;
    if n > 0 {
        let last = s.get_char(n - 1);
        assert(s@.last() == last);
        if last == 'm' {
            unit = 60;
        } else if last == 'h' {
            unit = 3600;
        } else if last == 'd' {
            unit = 86_400;
        }
        if last == 's' || last == 'm' || last == 'h' || last == 'd' {
            digits = s.substring_char(0, n - 1);
            assert(digits@ =~= s@.drop_last());
        }
    }
    let count: Option<u64> = match parse_number(digits) {
        Some(k) => if k > 0 {
            Some(k)
        } else {
            None
        },
        None => None,
    };
    match count {
        None => {
            let mut e =
                "vs must be a lookback such as 30m, 1h or 24h, or `episode` (got ".to_owned();
            e.append(quoted(raw).as_str());
            e.append(")");
            Err(e)
        },
        Some(k) => {
            assert(0 <= k * unit <= u64::MAX * u64::MAX) by (nonlinear_arith)
                requires
                    0 <= k <= u64::MAX,
                    0 <= unit <= u64::MAX,
            ;
            let product: u128 = k as u128 * unit as u128;
            let secs: u64 = if product > u64::MAX as u128 {
                u64::MAX
            } else {
                product as u64
            };
            if secs < MIN_LOOKBACK_SECS {
                let mut e = "vs must be at least 60s — two samples — (got ".to_owned();
                e.append(quoted(raw).as_str());
                e.append(")");
                return Err(e);
            }
            if secs > config.deltas_max_lookback_secs {
                let mut e = "vs must not exceed ".to_owned();
                e.append(fmt_secs(config.deltas_max_lookback_secs).as_str());
                e.append(
                    " — the raw retention; older history is rollups with no census behind it (got ",
                );
                e.append(quoted(raw).as_str());
                e.append(")");
                return Err(e);
            }
            Ok(Lookback::Ago(secs))
        },
    }
}

/// A span at a human scale, whole hours without minutes: `45s`, `12m`, `1h`,
/// `2h14m`, `1d0h`.
pub open spec fn span_words(secs: u64) -> Seq<char> {
    if secs < 60 {
        decimal(secs as nat) + "s"@
    } else if secs < 3600 {
        decimal((secs / 60) as nat) + "m"@
    } else if secs < 86_400 {
        if (secs % 3600) / 60 == 0 {
            decimal((secs / 3600) as nat) + "h"@
        } else {
            decimal((secs / 3600) as nat) + "h"@ + decimal(((secs % 3600) / 60) as nat) + "m"@
        }
    } else {
        decimal((secs / 86_400) as nat) + "d"@ + decimal(((secs % 86_400) / 3600) as nat) + "h"@
    }
}

pub fn fmt_secs(secs: u64) -> (r: String)
    ensures
        r@ == span_words(secs),
{
    if secs < 60 {
        let mut out = decimal_text(secs);
        out.append("s");
        out
    } else if secs < 3600 {
        let mut out = decimal_text(secs / 60);
        out.append("m");
        out
    } else if secs < 86_400 {
        let minutes: u64 = (secs % 3600) / 60;
        let mut out = decimal_text(secs / 3600);
        out.append("h");
        if minutes != 0 {
            push_decimal(&mut out, minutes);
            out.append("m");
        }
        out
    } else {
        let mut out = decimal_text(secs / 86_400);
        out.append("d");
        push_decimal(&mut out, (secs % 86_400) / 3600);
        out.append("h");
        out
    }
}

/// The default lookback as a caller would have written it.
pub fn default_lookback_label(config: &PressureConfig) -> (r: String)
    ensures
        r@ == span_words(config.deltas_default_lookback_secs),
{
    fmt_secs(config.deltas_default_lookback_secs)
}

/// A lookback that is accepted is the one that was asked for: nothing is clamped.
pub proof fn law_lookbacks_are_refused_not_clamped(raw: Seq<char>, config: PressureConfig)
    ensures
        meaning(raw, config) matches Ok(Lookback::Ago(secs)) ==> {
            &&& MIN_LOOKBACK_SECS <= secs <= config.deltas_max_lookback_secs
            &&& asked_secs(trimmed(raw)) == Some(secs)
        },
{
}

/// Nothing but blanks, tabs and line ends.
pub open spec fn is_blank(s: Seq<char>) -> bool {
    forall|i: int|
        0 <= i < s.len() ==> (#[trigger] s[i]) == ' ' || s[i] == '\t' || s[i] == '\n' || s[i] == '\r'
}

proof fn lemma_decimal_is_digits(n: nat)
    ensures
        decimal(n).len() > 0,
        all_digits(decimal(n)),
        digits_value(decimal(n)) == n,
    decreases n,
{
    if n < 10 {
        let s = decimal(n);
        assert(s.drop_last() =~= Seq::<char>::empty());
        assert(digits_value(Seq::<char>::empty()) == 0);
        assert(s.last() as u32 - 48 == n);
    } else {
        let front = decimal(n / 10);
        let s = decimal(n);
        lemma_decimal_is_digits(n / 10);
        assert(s.drop_last() =~= front);
        assert(s.last() as u32 - 48 == n % 10);
        assert forall|i: int| 0 <= i < s.len() implies is_digit(#[trigger] s[i]) by {
            if i < front.len() {
                assert(is_digit(front[i]));
            }
        }
    }
}

proof fn lemma_trimmed(before: Seq<char>, body: Seq<char>, after: Seq<char>)
    requires
        is_blank(before),
        is_blank(after),
        body.len() > 0,
        !is_space(body[0]),
        !is_space(body.last()),
    ensures
        trimmed(before + body + after) == body,
{
    lemma_unindented(before, body + after);
    assert(before + body + after =~= before + (body + after));
    lemma_untailed(body, after);
}

proof fn lemma_unindented(before: Seq<char>, rest: Seq<char>)
    requires
        is_blank(before),
        rest.len() > 0,
        !is_space(rest[0]),
    ensures
        unindented(before + rest) == rest,
    decreases before.len(),
{
    if before.len() > 0 {
        assert((before + rest)[0] == before[0]);
        assert((before + rest).drop_first() =~= before.drop_first() + rest);
        lemma_unindented(before.drop_first(), rest);
    } else {
        assert(before + rest =~= rest);
    }
}

proof fn lemma_untailed(body: Seq<char>, after: Seq<char>)
    requires
        is_blank(after),
        body.len() > 0,
        !is_space(body.last()),
    ensures
        untailed(body + after) == body,
    decreases after.len(),
{
    if after.len() > 0 {
        assert((body + after).last() == after[after.len() - 1]);
        assert((body + after).drop_last() =~= body + after.drop_last());
        lemma_untailed(body, after.drop_last());
    } else {
        assert(body + after =~= body);
    }
}

proof fn lemma_amount(n: nat, body: Seq<char>, unit: u64)
    requires
        n <= u64::MAX,
        0 < n,
        ({
            ||| body == decimal(n) && unit == 1
            ||| body == decimal(n).push('s') && unit == 1
            ||| body == decimal(n).push('m') && unit == 60
            ||| body == decimal(n).push('h') && unit == 3600
            ||| body == decimal(n).push('d') && unit == 86_400
        }),
    ensures
        asked_secs(body) == Some(
            if n * unit > u64::MAX {
                u64::MAX
            } else {
                (n * unit) as u64
            },
        ),
        !is_space(body[0]),
        !is_space(body.last()),
        body.len() > 0,
        !reads(body, "episode"@),
{
    lemma_decimal_is_digits(n);
    let d = decimal(n);
    assert(is_digit(d[0]));
    assert(is_digit(d[d.len() - 1]));
    assert(body[0] == d[0]);
    if body != d {
        assert(body.drop_last() =~= d);
    }
    assert(without_unit(body) == d);
    assert(unsigned(d) == d);
    assert(number(d) == Some(n as u64));
    reveal_strlit("episode");
    assert(lower(body[0]) != lower("episode"@[0]));
}

/// A lookback is read as it is written: a number, in seconds or in the unit behind
/// it, with blanks around it or none. What lies within the bounds is accepted as
/// it is, and nothing else is.
pub proof fn law_a_lookback_is_read_as_written(
    n: nat,
    body: Seq<char>,
    unit: u64,
    before: Seq<char>,
    after: Seq<char>,
    config: PressureConfig,
)
    requires
        0 < n <= u64::MAX,
        is_blank(before),
        is_blank(after),
        ({
            ||| body == decimal(n) && unit == 1
            ||| body == decimal(n).push('s') && unit == 1
            ||| body == decimal(n).push('m') && unit == 60
            ||| body == decimal(n).push('h') && unit == 3600
            ||| body == decimal(n).push('d') && unit == 86_400
        }),
    ensures
        60 <= n * unit <= config.deltas_max_lookback_secs ==> meaning(
            before + body + after,
            config,
        ) == Ok::<Lookback, Seq<char>>(Lookback::Ago((n * unit) as u64)),
        n * unit < 60 ==> meaning(before + body + after, config) is Err,
        60 <= n * unit && n * unit > config.deltas_max_lookback_secs
            && config.deltas_max_lookback_secs < u64::MAX ==> (meaning(before + body + after, config) matches Err(why) && mentions(
            why,
            span_words(config.deltas_max_lookback_secs),
        )),
{
    lemma_amount(n, body, unit);
    lemma_trimmed(before, body, after);
    let raw = before + body + after;
    if n * unit > config.deltas_max_lookback_secs && config.deltas_max_lookback_secs < u64::MAX
        && n * unit >= 60 {
        let why = meaning(raw, config)->Err_0;
        let tail =
            " — the raw retention; older history is rollups with no census behind it (got "@
            + quoted_text(raw) + ")"@;
        assert(why =~= "vs must not exceed "@ + span_words(config.deltas_max_lookback_secs) + tail);
    }
    if n * unit < 60 {
        assert(asked_secs(body) == Some((n * unit) as u64));
    }
}

/// The word for the open incident is read in any case of its letters, with blanks
/// around it or none.
pub proof fn law_the_word_is_read_in_any_case(
    word: Seq<char>,
    before: Seq<char>,
    after: Seq<char>,
    config: PressureConfig,
)
    requires
        is_blank(before),
        is_blank(after),
        word.len() == 7,
        word[0] == 'e' || word[0] == 'E',
        word[1] == 'p' || word[1] == 'P',
        word[2] == 'i' || word[2] == 'I',
        word[3] == 's' || word[3] == 'S',
        word[4] == 'o' || word[4] == 'O',
        word[5] == 'd' || word[5] == 'D',
        word[6] == 'e' || word[6] == 'E',
    ensures
        meaning(before + word + after, config) == Ok::<Lookback, Seq<char>>(Lookback::Episode),
{
    reveal_strlit("episode");
    lemma_trimmed(before, word, after);
    assert forall|i: int| 0 <= i < word.len() implies lower(#[trigger] word[i]) == lower(
        "episode"@[i],
    ) by {}
}

/// What is neither a number nor the word is refused: something other than a digit
/// stands before the unit, and a plus sign only in front.
pub proof fn law_anything_else_is_refused(
    body: Seq<char>,
    i: int,
    before: Seq<char>,
    after: Seq<char>,
    config: PressureConfig,
)
    requires
        is_blank(before),
        is_blank(after),
        body.len() > 0,
        !is_space(body[0]),
        !is_space(body.last()),
        0 <= i < body.len() - 1,
        !('0' <= body[i] <= '9'),
        body[i] != '+' || i > 0,
        body.len() != 7,
    ensures
        meaning(before + body + after, config) is Err,
{
    lemma_trimmed(before, body, after);
    reveal_strlit("episode");
    let digits = without_unit(body);
    let plain = unsigned(digits);
    assert(digits[i] == body[i]);
    if digits.len() > 0 && digits[0] == '+' {
        assert(plain[i - 1] == body[i]);
    } else {
        assert(plain[i] == body[i]);
    }
    assert(!all_digits(plain));
}

/// A span is told at its own scale and rounded down, whole hours without minutes.
pub proof fn law_a_span_is_worded_at_its_scale(secs: u64)
    ensures
        secs < 60 ==> span_words(secs) == decimal(secs as nat) + "s"@,
        60 <= secs < 3600 ==> exists|m: nat|
            m * 60 <= secs < m * 60 + 60 && span_words(secs) == #[trigger] decimal(m) + "m"@,
        3600 <= secs < 86_400 ==> exists|h: nat, m: nat|
            m < 60 && h * 3600 + m * 60 <= secs < h * 3600 + m * 60 + 60 && span_words(secs)
                == #[trigger] decimal(h) + "h"@ + if m == 0 {
                Seq::<char>::empty()
            } else {
                #[trigger] decimal(m) + "m"@
            },
        86_400 <= secs ==> exists|d: nat, h: nat|
            h < 24 && d * 86_400 + h * 3600 <= secs < d * 86_400 + h * 3600 + 3600 && span_words(
                secs,
            ) == #[trigger] decimal(d) + "d"@ + #[trigger] decimal(h) + "h"@,
{
    if 60 <= secs < 3600 {
        let m = (secs / 60) as nat;
        assert(span_words(secs) == decimal(m) + "m"@);
    } else if 3600 <= secs < 86_400 {
        let h = (secs / 3600) as nat;
        let m = ((secs % 3600) / 60) as nat;
        let tail = if m == 0 {
            Seq::<char>::empty()
        } else {
            decimal(m) + "m"@
        };
        assert(span_words(secs) =~= decimal(h) + "h"@ + tail);
    } else if 86_400 <= secs {
        let d = (secs / 86_400) as nat;
        let h = ((secs % 86_400) / 3600) as nat;
        assert(span_words(secs) == decimal(d) + "d"@ + decimal(h) + "h"@);
    }
}

} // verus!
