//! Command-line argument handling shared by the experiment programs:
//! decimal integers, comma-separated lists and flag/value pairs.
use vstd::prelude::*;

verus! {

/// Why a string is not a valid unsigned decimal integer.
#[derive(Clone, Copy, Debug, PartialEq, Eq, Structural)]
pub enum IntErrorKind {
    /// The string is empty.
    Empty,
    /// A character other than a decimal digit (after an optional leading `+`).
    InvalidDigit,
    /// The value does not fit in the target type.
    PosOverflow,
}

/// `c` is one of `'0'..='9'`.
pub open spec fn is_digit(c: char) -> bool {
    '0' <= c && c <= '9'
}

/// Numeric value of a decimal digit.
pub open spec fn digit_value(c: char) -> nat {
    (c as int - '0' as int) as nat
}

/// Reads the digits of `s` from left to right into `acc`; the first
/// non-digit is an `InvalidDigit`, and the first prefix whose value exceeds
/// `max` is a `PosOverflow`.
pub open spec fn parse_digits(s: Seq<char>, acc: nat, max: nat) -> Result<nat, IntErrorKind>
    decreases s.len(),
{
    if s.len() == 0 {
        Ok(acc)
    } else if !is_digit(s[0]) {
        Err(IntErrorKind::InvalidDigit)
    } else if acc * 10 + digit_value(s[0]) > max {
        Err(IntErrorKind::PosOverflow)
    } else {
        parse_digits(s.drop_first(), acc * 10 + digit_value(s[0]), max)
    }
}

/// Standard parsing of an unsigned decimal integer no larger than `max`:
/// an optional leading `+`, then at least one digit.
pub open spec fn parse_unsigned(s: Seq<char>, max: nat) -> Result<nat, IntErrorKind> {
    if s.len() == 0 {
        Err(IntErrorKind::Empty)
    } else if s.len() == 1 && (s[0] == '+' || s[0] == '-') {
        Err(IntErrorKind::InvalidDigit)
    } else if s[0] == '+' {
        parse_digits(s.drop_first(), 0, max)
    } else {
        parse_digits(s, 0, max)
    }
}

/// A successful parse never exceeds the bound.
pub proof fn lemma_parse_digits_bounded(s: Seq<char>, acc: nat, max: nat)
    requires
        acc <= max,
    ensures
        parse_digits(s, acc, max) matches Ok(n) ==> n <= max,
    decreases s.len(),
{
    if s.len() > 0 && is_digit(s[0]) && acc * 10 + digit_value(s[0]) <= max {
        lemma_parse_digits_bounded(s.drop_first(), acc * 10 + digit_value(s[0]), max);
    }
}

/// `10` to the power `n`.
pub open spec fn pow10(n: nat) -> nat
    decreases n,
{
    if n == 0 {
        1
    } else {
        10 * pow10((n - 1) as nat)
    }
}

/// Every character of `s` is a decimal digit.
pub open spec fn all_digits(s: Seq<char>) -> bool {
    forall|i: int| 0 <= i < s.len() ==> is_digit(#[trigger] s[i])
}

/// The number that the digits `s` denote positionally: the digit at
/// position `i` counts `10^(len - 1 - i)` times.
pub open spec fn decimal_value(s: Seq<char>) -> nat
    decreases s.len(),
{
    if s.len() == 0 {
        0
    } else {
        digit_value(s[0]) * pow10((s.len() - 1) as nat) + decimal_value(s.drop_first())
    }
}

/// The decimal digit for `d`, for `d` in `0..10`.
pub open spec fn digit_char(d: nat) -> char {
    if d == 0 {
        '0'
    } else if d == 1 {
        '1'
    } else if d == 2 {
        '2'
    } else if d == 3 {
        '3'
    } else if d == 4 {
        '4'
    } else if d == 5 {
        '5'
    } else if d == 6 {
        '6'
    } else if d == 7 {
        '7'
    } else if d == 8 {
        '8'
    } else {
        '9'
    }
}

/// The decimal representation of `n`, without leading zeros.
pub open spec fn decimal_digits(n: nat) -> Seq<char>
    decreases n,
{
    if n < 10 {
        seq![digit_char(n)]
    } else {
        decimal_digits(n / 10).push(digit_char(n % 10))
    }
}

proof fn lemma_pow10_positive(n: nat)
    ensures
        pow10(n) >= 1,
    decreases n,
{
    if n > 0 {
        lemma_pow10_positive((n - 1) as nat);
    }
}

/// Reading digits after a prefix worth `acc` gives `acc` shifted by the
/// number of digits plus their value, whenever that fits under `max`.
pub proof fn lemma_parse_digits_value(s: Seq<char>, acc: nat, max: nat)
    requires
        all_digits(s),
        acc * pow10(s.len()) + decimal_value(s) <= max,
    ensures
        parse_digits(s, acc, max) == Ok::<nat, IntErrorKind>(
            acc * pow10(s.len()) + decimal_value(s),
        ),
    decreases s.len(),
{
    if s.len() > 0 {
        let n = (s.len() - 1) as nat;
        let d = digit_value(s[0]);
        let rest = s.drop_first();
        let p = pow10(n);
        lemma_pow10_positive(n);
        assert(is_digit(s[0]));
        assert(pow10(s.len()) == 10 * p);
        assert(acc * pow10(s.len()) + d * p == (acc * 10 + d) * p) by (nonlinear_arith)
            requires
                pow10(s.len()) == 10 * p,
        ;
        assert(acc * 10 + d <= (acc * 10 + d) * p) by (nonlinear_arith)
            requires
                p >= 1,
        ;
        assert(all_digits(rest)) by {
            assert forall|i: int| 0 <= i < rest.len() implies is_digit(#[trigger] rest[i]) by {
                assert(rest[i] == s[i + 1]);
            }
        }
        assert(decimal_value(s) == d * p + decimal_value(rest));
        assert(acc * pow10(s.len()) + decimal_value(s) == (acc * 10 + d) * p + decimal_value(rest));
        lemma_parse_digits_value(rest, acc * 10 + d, max);
        assert(rest.len() == n);
    } else {
        assert(pow10(0) == 1);
        assert(acc * 1 == acc);
    }
}

/// Digits after a prefix worth `acc` (itself within the bound) are read in
/// full exactly when their value fits under `max`, and otherwise overflow;
/// a string with a non-digit is never accepted.
pub proof fn lemma_parse_digits_outcome(s: Seq<char>, acc: nat, max: nat)
    requires
        acc <= max,
    ensures
        all_digits(s) ==> parse_digits(s, acc, max) == if acc * pow10(s.len()) + decimal_value(s)
            <= max {
            Ok::<nat, IntErrorKind>(acc * pow10(s.len()) + decimal_value(s))
        } else {
            Err::<nat, IntErrorKind>(IntErrorKind::PosOverflow)
        },
        !all_digits(s) ==> parse_digits(s, acc, max) is Err,
    decreases s.len(),
{
    if s.len() == 0 {
        assert(pow10(0) == 1);
        assert(acc * 1 == acc);
    } else {
        let n = (s.len() - 1) as nat;
        let d = digit_value(s[0]);
        let rest = s.drop_first();
        let p = pow10(n);
        lemma_pow10_positive(n);
        assert(pow10(s.len()) == 10 * p);
        assert(decimal_value(s) == d * p + decimal_value(rest));
        assert(acc * pow10(s.len()) + d * p == (acc * 10 + d) * p) by (nonlinear_arith)
            requires
                pow10(s.len()) == 10 * p,
        ;
        assert(acc * 10 + d <= (acc * 10 + d) * p) by (nonlinear_arith)
            requires
                p >= 1,
        ;
        assert(acc * pow10(s.len()) + decimal_value(s) == (acc * 10 + d) * p + decimal_value(rest));
        assert(rest.len() == n);
        assert(all_digits(s) ==> all_digits(rest)) by {
            if all_digits(s) {
                assert forall|i: int| 0 <= i < rest.len() implies is_digit(#[trigger] rest[i]) by {
                    assert(rest[i] == s[i + 1]);
                }
            }
        }
        if !all_digits(s) && is_digit(s[0]) {
            let j = choose|j: int| 0 <= j < s.len() && !is_digit(#[trigger] s[j]);
            assert(j > 0);
            assert(rest[j - 1] == s[j]);
            assert(!all_digits(rest));
        }
        if is_digit(s[0]) && acc * 10 + d <= max {
            lemma_parse_digits_outcome(rest, acc * 10 + d, max);
        }
    }
}

/// Appending a digit multiplies the value by ten and adds the digit.
proof fn lemma_decimal_value_push(s: Seq<char>, c: char)
    ensures
        decimal_value(s.push(c)) == decimal_value(s) * 10 + digit_value(c),
    decreases s.len(),
{
    let t = s.push(c);
    if s.len() == 0 {
        assert(t.drop_first() =~= Seq::<char>::empty());
        assert(decimal_value(t.drop_first()) == 0);
        assert(pow10(0) == 1);
        assert(t[0] == c);
        assert(decimal_value(t) == digit_value(c) * pow10(0) + decimal_value(t.drop_first()));
        assert(decimal_value(s) == 0);
    } else {
        let rest = s.drop_first();
        assert(t.drop_first() =~= rest.push(c));
        lemma_decimal_value_push(rest, c);
        let n = (s.len() - 1) as nat;
        let d = digit_value(s[0]);
        assert(t[0] == s[0]);
        assert(t.len() == s.len() + 1);
        assert(pow10(s.len()) == 10 * pow10(n));
        assert(decimal_value(t) == d * pow10(s.len()) + decimal_value(rest.push(c)));
        assert(decimal_value(s) == d * pow10(n) + decimal_value(rest));
        assert(d * pow10(s.len()) == d * pow10(n) * 10) by (nonlinear_arith)
            requires
                pow10(s.len()) == 10 * pow10(n),
        ;
        assert((d * pow10(n) + decimal_value(rest)) * 10 == d * pow10(n) * 10 + decimal_value(rest)
            * 10) by (nonlinear_arith);
    }
}

/// The printed digits of `n` are digits and denote `n`.
proof fn lemma_decimal_digits(n: nat)
    ensures
        decimal_digits(n).len() >= 1,
        all_digits(decimal_digits(n)),
        decimal_value(decimal_digits(n)) == n,
    decreases n,
{
    if n < 10 {
        let s = decimal_digits(n);
        assert(s.drop_first() =~= Seq::<char>::empty());
        assert(decimal_value(s.drop_first()) == 0);
        assert(pow10(0) == 1);
        assert(is_digit(s[0]));
        assert(digit_value(s[0]) == n);
        assert(decimal_value(s) == digit_value(s[0]) * pow10(0) + decimal_value(s.drop_first()));
    } else {
        lemma_decimal_digits(n / 10);
        let p = decimal_digits(n / 10);
        let c = digit_char(n % 10);
        lemma_decimal_value_push(p, c);
        assert(digit_value(c) == n % 10);
        assert(decimal_digits(n) == p.push(c));
        assert((n / 10) * 10 + n % 10 == n);
        assert forall|i: int| 0 <= i < p.push(c).len() implies is_digit(#[trigger] p.push(c)[i]) by {
            if i < p.len() {
                assert(p.push(c)[i] == p[i]);
            }
        }
    }
}

/// Parsing is the inverse of printing: the decimal digits of any `n` up to
/// the bound parse back to `n`.
pub proof fn lemma_parse_decimal_roundtrip(n: nat, max: nat)
    requires
        n <= max,
    ensures
        parse_unsigned(decimal_digits(n), max) == Ok::<nat, IntErrorKind>(n),
{
    lemma_decimal_digits(n);
    let s = decimal_digits(n);
    assert(is_digit(s[0]));
    lemma_parse_digits_value(s, 0, max);
}

/// Parse `s` as an unsigned decimal integer no larger than `max`.
fn parse_bounded(s: &str, max: u64) -> (r: Result<u64, IntErrorKind>)
    ensures
        match r {
            Ok(n) => parse_unsigned(s@, max as nat) == Ok::<nat, IntErrorKind>(n as nat),
            Err(e) => parse_unsigned(s@, max as nat) == Err::<nat, IntErrorKind>(e),
        },
{
    let n = s.unicode_len();
    if n == 0 {
        return Err(IntErrorKind::Empty);
    }
    let first = s.get_char(0);
    if n == 1 && (first == '+' || first == '-') {
        return Err(IntErrorKind::InvalidDigit);
    }
    let start: usize = if first == '+' {
        1
    } else {
        0
    };
    proof {
        assert(s@.subrange(start as int, n as int) == (if first == '+' {
            s@.drop_first()
        } else {
            s@
        }));
        assert(parse_unsigned(s@, max as nat) == parse_digits(
            s@.subrange(start as int, n as int),
            0,
            max as nat,
        ));
    }
    let mut acc: u64 = 0;
    let mut i: usize = start;
    while i < n
        invariant
            n == s@.len(),
            start <= i <= n,
            acc <= max,
            parse_unsigned(s@, max as nat) == parse_digits(
                s@.subrange(start as int, n as int),
                0,
                max as nat,
            ),
            parse_digits(s@.subrange(start as int, n as int), 0, max as nat) == parse_digits(
                s@.subrange(i as int, n as int),
                acc as nat,
                max as nat,
            ),
        decreases n - i,
    {
        let c = s.get_char(i);
        let ghost rest = s@.subrange(i as int, n as int);
        assert(rest[0] == c);
        assert(rest.drop_first() == s@.subrange(i + 1, n as int));
        if !('0' <= c && c <= '9') {
            assert(!is_digit(rest[0]));
            assert(parse_digits(rest, acc as nat, max as nat) == Err::<nat, IntErrorKind>(
                IntErrorKind::InvalidDigit,
            ));
            return Err(IntErrorKind::InvalidDigit);
        }
        let d = (c as u32 - '0' as u32) as u64;
        assert(d as nat == digit_value(c));
        if d > max {
            assert(parse_digits(rest, acc as nat, max as nat) == Err::<nat, IntErrorKind>(
                IntErrorKind::PosOverflow,
            ));
            return Err(IntErrorKind::PosOverflow);
        }
        if acc > (max - d) / 10 {
            assert(acc * 10 + d > max) by (nonlinear_arith)
                requires
                    acc > (max - d) / 10,
                    d <= max,
            ;
            return Err(IntErrorKind::PosOverflow);
        }
        assert(acc * 10 + d <= max) by (nonlinear_arith)
            requires
                acc <= (max - d) / 10,
                d <= max,
        ;
        acc = acc * 10 + d;
        i += 1;
    }
    Ok(acc)
}

/// Parse `s` as a `u64` in decimal, as `str::parse::<u64>` does.
pub fn parse_u64(s: &str) -> (r: Result<u64, IntErrorKind>)
    ensures
        match r {
            Ok(n) => parse_unsigned(s@, u64::MAX as nat) == Ok::<nat, IntErrorKind>(n as nat),
            Err(e) => parse_unsigned(s@, u64::MAX as nat) == Err::<nat, IntErrorKind>(e),
        },
{
    parse_bounded(s, u64::MAX)
}

/// Parse `s` as a `usize` in decimal, as `str::parse::<usize>` does.
pub fn parse_usize(s: &str) -> (r: Result<usize, IntErrorKind>)
    ensures
        match r {
            Ok(n) => parse_unsigned(s@, usize::MAX as nat) == Ok::<nat, IntErrorKind>(n as nat),
            Err(e) => parse_unsigned(s@, usize::MAX as nat) == Err::<nat, IntErrorKind>(e),
        },
{
    let max = usize::MAX as u64;
    match parse_bounded(s, max) {
        Ok(n) => {
            proof {
                let t = if s@.len() > 0 && s@[0] == '+' && s@.len() != 1 {
                    s@.drop_first()
                } else {
                    s@
                };
                lemma_parse_digits_bounded(t, 0, max as nat);
            }
            Ok(n as usize)
        },
        Err(e) => Err(e),
    }
}


/// The command-line arguments still to be read, in order.
pub struct ArgList<'a> {
    items: &'a [String],
    pos: usize,
}

impl<'a> ArgList<'a> {
    /// All arguments, read or not.
    pub closed spec fn items(&self) -> Seq<String> {
        self.items@
    }

    /// How many arguments have been read.
    pub closed spec fn position(&self) -> nat {
        self.pos as nat
    }

    /// The arguments not read yet.
    pub open spec fn remaining(&self) -> Seq<String> {
        if self.position() <= self.items().len() {
            self.items().subrange(self.position() as int, self.items().len() as int)
        } else {
            Seq::empty()
        }
    }

    /// A reader positioned at the first of `items`.
    pub fn new(items: &'a [String]) -> (list: Self)
        ensures
            list.items() == items@,
            list.position() == 0,
            list.remaining() == items@,
    {
        ArgList { items, pos: 0 }
    }

    /// Read the next argument, if any is left.
    pub fn next(&mut self) -> (arg: Option<String>)
        ensures
            final(self).items() == old(self).items(),
            old(self).remaining().len() == 0 ==> arg is None && final(self).position() == old(
                self,
            ).position(),
            old(self).remaining().len() > 0 ==> arg == Some(old(self).remaining()[0])
                && final(self).position() == old(self).position() + 1,
            final(self).remaining() == (if old(self).remaining().len() == 0 {
                old(self).remaining()
            } else {
                old(self).remaining().drop_first()
            }),
    {
        if self.pos < self.items.len() {
            let arg = self.items[self.pos].clone();
            self.pos = self.pos + 1;
            Some(arg)
        } else {
            None
        }
    }
}

/// Why the value of a flag could not be read.
#[derive(Debug)]
pub enum ValueError {
    /// No argument follows `flag`.
    Missing { flag: String },
    /// The argument `raw` after `flag` is not a valid number.
    Invalid { flag: String, raw: String, kind: IntErrorKind },
}

/// Read the argument after `flag` from `values` and parse it as a `usize`.
pub fn parse_next(flag: &str, values: &mut ArgList) -> (r: Result<usize, ValueError>)
    ensures
        final(values).items() == old(values).items(),
        old(values).remaining().len() == 0 ==> final(values).position() == old(values).position()
            && (r matches Err(ValueError::Missing { flag: f }) && f@ == flag@),
        old(values).remaining().len() > 0 ==> final(values).position() == old(values).position()
            + 1 && match parse_unsigned(old(values).remaining()[0]@, usize::MAX as nat) {
            Ok(n) => r == Ok::<usize, ValueError>(n as usize),
            Err(k) => r matches Err(ValueError::Invalid { flag: f, raw, kind }) && f@ == flag@
                && raw@ == old(values).remaining()[0]@ && kind == k,
        },
{
    match values.next() {
        None => Err(ValueError::Missing { flag: flag.to_owned() }),
        Some(raw) => match parse_usize(raw.as_str()) {
            Ok(n) => Ok(n),
            Err(kind) => Err(ValueError::Invalid { flag: flag.to_owned(), raw, kind }),
        },
    }
}


/// The pieces of `s` between commas, as `str::split(',')` yields them: one
/// more piece than there are commas, empty pieces included.
pub open spec fn split_commas(s: Seq<char>) -> Seq<Seq<char>>
    decreases s.len(),
{
    if s.len() == 0 {
        seq![Seq::<char>::empty()]
    } else {
        let rest = split_commas(s.drop_first());
        if s[0] == ',' {
            seq![Seq::<char>::empty()] + rest
        } else {
            rest.update(0, seq![s[0]] + rest[0])
        }
    }
}

/// `values` in front of the values of `r`, or the error of `r`.
pub open spec fn prepend(values: Seq<nat>, r: Result<Seq<nat>, IntErrorKind>) -> Result<
    Seq<nat>,
    IntErrorKind,
> {
    match r {
        Ok(rest) => Ok(values + rest),
        Err(e) => Err(e),
    }
}

/// Parse every piece in order; the first piece that fails decides the error.
pub open spec fn parse_all(pieces: Seq<Seq<char>>, max: nat) -> Result<Seq<nat>, IntErrorKind>
    decreases pieces.len(),
{
    if pieces.len() == 0 {
        Ok(Seq::empty())
    } else {
        match parse_unsigned(pieces[0], max) {
            Err(e) => Err(e),
            Ok(n) => prepend(seq![n], parse_all(pieces.drop_first(), max)),
        }
    }
}

/// A comma-separated list of unsigned integers no larger than `max`.
pub open spec fn parse_list(s: Seq<char>, max: nat) -> Result<Seq<nat>, IntErrorKind> {
    parse_all(split_commas(s), max)
}

/// Splitting never yields an empty list of pieces.
pub proof fn lemma_split_nonempty(s: Seq<char>)
    ensures
        split_commas(s).len() >= 1,
    decreases s.len(),
{
    if s.len() > 0 {
        lemma_split_nonempty(s.drop_first());
    }
}

/// Number of commas in `s`.
pub open spec fn count_commas(s: Seq<char>) -> nat
    decreases s.len(),
{
    if s.len() == 0 {
        0
    } else {
        (if s[0] == ',' {
            1nat
        } else {
            0nat
        }) + count_commas(s.drop_first())
    }
}

/// Splitting yields exactly one more piece than there are commas.
pub proof fn lemma_split_count(s: Seq<char>)
    ensures
        split_commas(s).len() == count_commas(s) + 1,
    decreases s.len(),
{
    if s.len() > 0 {
        lemma_split_count(s.drop_first());
    }
}

/// A comma-free prefix of length `k` is the start of the first piece.
proof fn lemma_split_prefix(s: Seq<char>, k: int)
    requires
        0 <= k <= s.len(),
        forall|i: int| 0 <= i < k ==> s[i] != ',',
    ensures
        split_commas(s) == split_commas(s.skip(k)).update(
            0,
            s.take(k) + split_commas(s.skip(k))[0],
        ),
    decreases k,
{
    lemma_split_nonempty(s.skip(k));
    if k == 0 {
        assert(s.skip(0) == s);
        assert(s.take(0) + split_commas(s)[0] == split_commas(s)[0]);
        assert(split_commas(s).update(0, split_commas(s)[0]) == split_commas(s));
    } else {
        let t = s.drop_first();
        lemma_split_prefix(t, k - 1);
        assert(s[0] != ',');
        assert(t.skip(k - 1) == s.skip(k));
        assert(seq![s[0]] + t.take(k - 1) == s.take(k));
        lemma_split_nonempty(t);
        let p = split_commas(s.skip(k));
        let rest = split_commas(t);
        assert(rest == p.update(0, t.take(k - 1) + p[0]));
        assert(rest[0] == t.take(k - 1) + p[0]);
        assert(split_commas(s) == rest.update(0, seq![s[0]] + rest[0]));
        assert(seq![s[0]] + (t.take(k - 1) + p[0]) == s.take(k) + p[0]);
        assert(split_commas(s) =~= p.update(0, s.take(k) + p[0]));
    }
}

/// Every value of a successful list parse is at most `max`.
proof fn lemma_parse_all_bounded(pieces: Seq<Seq<char>>, max: nat, ns: Seq<nat>)
    requires
        parse_all(pieces, max) == Ok::<Seq<nat>, IntErrorKind>(ns),
    ensures
        forall|i: int| 0 <= i < ns.len() ==> ns[i] <= max,
    decreases pieces.len(),
{
    if pieces.len() > 0 {
        let p = pieces[0];
        let t = if p.len() > 0 && p[0] == '+' && p.len() != 1 {
            p.drop_first()
        } else {
            p
        };
        lemma_parse_digits_bounded(t, 0, max);
        if let Ok(n) = parse_unsigned(p, max) {
            if let Ok(rest) = parse_all(pieces.drop_first(), max) {
                lemma_parse_all_bounded(pieces.drop_first(), max, rest);
                assert(ns == seq![n] + rest);
                assert forall|i: int| 0 <= i < ns.len() implies ns[i] <= max by {
                    if i > 0 {
                        assert(ns[i] == rest[i - 1]);
                    }
                }
            }
        }
    }
}

/// Parse a comma-separated list of unsigned integers no larger than `max`.
fn parse_list_bounded(s: &str, max: u64) -> (r: Result<Vec<u64>, IntErrorKind>)
    ensures
        match r {
            Ok(v) => parse_list(s@, max as nat) == Ok::<Seq<nat>, IntErrorKind>(
                v@.map_values(|x: u64| x as nat),
            ),
            Err(e) => parse_list(s@, max as nat) == Err::<Seq<nat>, IntErrorKind>(e),
        },
{
    let n = s.unicode_len();
    let mut out: Vec<u64> = Vec::new();
    let mut start: usize = 0;
    let mut i: usize = 0;
    proof {
        assert(s@.subrange(0, n as int) == s@);
    }
    while i < n
        invariant
            n == s@.len(),
            start <= i <= n,
            forall|j: int| start <= j < i ==> s@[j] != ',',
            parse_list(s@, max as nat) == prepend(
                out@.map_values(|x: u64| x as nat),
                parse_all(split_commas(s@.subrange(start as int, n as int)), max as nat),
            ),
        decreases n - i,
    {
        let c = s.get_char(i);
        if c == ',' {
            let piece = s.substring_char(start, i);
            let ghost t = s@.subrange(start as int, n as int);
            let ghost k = (i - start) as int;
            proof {
                assert forall|j: int| 0 <= j < k implies t[j] != ',' by {
                    assert(t[j] == s@[start + j]);
                }
                lemma_split_prefix(t, k);
                assert(t.take(k) == piece@);
                assert(t.skip(k).drop_first() == s@.subrange(i + 1, n as int));
                assert(t.skip(k)[0] == ',');
                lemma_split_nonempty(s@.subrange(i + 1, n as int));
                assert(split_commas(t) == seq![piece@] + split_commas(s@.subrange(i + 1, n as int)));
                assert((seq![piece@] + split_commas(s@.subrange(i + 1, n as int))).drop_first()
                    == split_commas(s@.subrange(i + 1, n as int)));
            }
            match parse_bounded(piece, max) {
                Err(e) => {
                    return Err(e);
                },
                Ok(value) => {
                    let ghost before = out@.map_values(|x: u64| x as nat);
                    out.push(value);
                    proof {
                        assert(out@.map_values(|x: u64| x as nat) == before + seq![value as nat]);
                        let rest = parse_all(split_commas(s@.subrange(i + 1, n as int)), max as nat);
                        match rest {
                            Ok(ns) => {
                                assert(before + (seq![value as nat] + ns) == (before + seq![
                                    value as nat,
                                ]) + ns);
                            },
                            Err(_) => {},
                        }
                    }
                    start = i + 1;
                },
            }
        }
        i += 1;
    }
    let piece = s.substring_char(start, n);
    let ghost t = s@.subrange(start as int, n as int);
    proof {
        let k = (n - start) as int;
        assert forall|j: int| 0 <= j < k implies t[j] != ',' by {
            assert(t[j] == s@[start + j]);
        }
        lemma_split_prefix(t, k);
        assert(t.take(k) == piece@);
        assert(t.skip(k).len() == 0);
        assert(split_commas(t.skip(k)) == seq![Seq::<char>::empty()]);
        assert(piece@ + Seq::<char>::empty() == piece@);
        assert(split_commas(t) == seq![piece@]);
        assert(seq![piece@].drop_first().len() == 0);
    }
    match parse_bounded(piece, max) {
        Err(e) => Err(e),
        Ok(value) => {
            let ghost before = out@.map_values(|x: u64| x as nat);
            out.push(value);
            proof {
                assert(out@.map_values(|x: u64| x as nat) == before + seq![value as nat]);
                assert(parse_all(seq![piece@].drop_first(), max as nat) == Ok::<
                    Seq<nat>,
                    IntErrorKind,
                >(Seq::empty()));
                assert(seq![value as nat] + Seq::<nat>::empty() == seq![value as nat]);
            }
            Ok(out)
        },
    }
}

/// Parse a comma-separated list of `u64` values, failing on the first
/// piece that is not a valid `u64`.
pub fn parse_u64_list(s: &str) -> (r: Result<Vec<u64>, IntErrorKind>)
    ensures
        match r {
            Ok(v) => parse_list(s@, u64::MAX as nat) == Ok::<Seq<nat>, IntErrorKind>(
                v@.map_values(|x: u64| x as nat),
            ),
            Err(e) => parse_list(s@, u64::MAX as nat) == Err::<Seq<nat>, IntErrorKind>(e),
        },
{
    parse_list_bounded(s, u64::MAX)
}

/// Parse a comma-separated list of `usize` values, failing on the first
/// piece that is not a valid `usize`.
pub fn parse_usize_list(s: &str) -> (r: Result<Vec<usize>, IntErrorKind>)
    ensures
        match r {
            Ok(v) => parse_list(s@, usize::MAX as nat) == Ok::<Seq<nat>, IntErrorKind>(
                v@.map_values(|x: usize| x as nat),
            ),
            Err(e) => parse_list(s@, usize::MAX as nat) == Err::<Seq<nat>, IntErrorKind>(e),
        },
{
    let max = usize::MAX as u64;
    match parse_list_bounded(s, max) {
        Err(e) => Err(e),
        Ok(wide) => {
            proof {
                let ns = wide@.map_values(|x: u64| x as nat);
                lemma_parse_all_bounded(split_commas(s@), max as nat, ns);
                assert forall|j: int| 0 <= j < wide@.len() implies wide@[j] <= max by {
                    assert(ns[j] == wide@[j] as nat);
                    assert(ns[j] <= max as nat);
                }
            }
            let mut out: Vec<usize> = Vec::new();
            let mut i: usize = 0;
            while i < wide.len()
                invariant
                    i <= wide@.len(),
                    max == usize::MAX as u64,
                    forall|j: int| 0 <= j < wide@.len() ==> wide@[j] <= max,
                    out@.len() == i,
                    forall|j: int| 0 <= j < i ==> out@[j] as nat == wide@[j] as nat,
                decreases wide@.len() - i,
            {
                out.push(wide[i] as usize);
                i += 1;
            }
            proof {
                assert(out@.map_values(|x: usize| x as nat) == wide@.map_values(|x: u64| x as nat));
            }
            Ok(out)
        },
    }
}


/// Whether `a` and `b` hold the same characters.
pub fn str_eq(a: &str, b: &str) -> (r: bool)
    ensures
        r == (a@ == b@),
{
    let n = a.unicode_len();
    let m = b.unicode_len();
    if n != m {
        return false;
    }
    let mut i: usize = 0;
    while i < n
        invariant
            n == a@.len(),
            m == b@.len(),
            n == m,
            i <= n,
            forall|j: int| 0 <= j < i ==> a@[j] == b@[j],
        decreases n - i,
    {
        if a.get_char(i) != b.get_char(i) {
            return false;
        }
        i += 1;
    }
    assert(a@ =~= b@);
    true
}

/// Why the arguments of the forward benchmark were rejected.  Positions
/// count from the first argument after the program name.
#[derive(Clone, Copy, Debug, PartialEq, Eq, Structural)]
pub enum ArgError {
    /// The flag at `flag_at` is the last argument, so it has no value.
    MissingValue { flag_at: usize },
    /// The value after the flag at `flag_at` is not a valid number (list).
    InvalidValue { flag_at: usize, kind: IntErrorKind },
    /// The argument at `flag_at` is not a known flag.
    UnknownArgument { flag_at: usize },
    /// The list of grid sizes is empty.
    EmptyGrids,
    /// The number of timed steps is zero.
    ZeroSteps,
    /// The number of trials is zero.
    ZeroTrials,
}

/// Settings of the forward benchmark as plain values: grid sizes, timed
/// steps, trials, warm-up steps and seed radius.
pub type BenchSettings = (Seq<usize>, usize, usize, usize, usize);

/// The settings used when no flag overrides them.
pub open spec fn bench_default_settings() -> BenchSettings {
    (seq![128usize, 256usize, 512usize], 500usize, 5usize, 25usize, 5usize)
}

/// The values of a list of parsed numbers, as `usize`.
pub open spec fn as_usizes(ns: Seq<nat>) -> Seq<usize> {
    ns.map_values(|n: nat| n as usize)
}

/// Reads `--flag value` pairs from position `i` on, starting from `st`.
pub open spec fn bench_scan(args: Seq<Seq<char>>, i: nat, st: BenchSettings) -> Result<
    BenchSettings,
    ArgError,
>
    decreases args.len() - i,
{
    if i >= args.len() {
        Ok(st)
    } else if i + 1 >= args.len() {
        Err(ArgError::MissingValue { flag_at: i as usize })
    } else {
        let flag = args[i as int];
        let value = args[i as int + 1];
        if flag == "--grids"@ {
            match parse_list(value, usize::MAX as nat) {
                Ok(ns) => bench_scan(args, i + 2, (as_usizes(ns), st.1, st.2, st.3, st.4)),
                Err(k) => Err(ArgError::InvalidValue { flag_at: i as usize, kind: k }),
            }
        } else if flag == "--steps"@ || flag == "--trials"@ || flag == "--warmup-steps"@ || flag
            == "--radius"@ {
            match parse_unsigned(value, usize::MAX as nat) {
                Ok(n) => bench_scan(
                    args,
                    i + 2,
                    if flag == "--steps"@ {
                        (st.0, n as usize, st.2, st.3, st.4)
                    } else if flag == "--trials"@ {
                        (st.0, st.1, n as usize, st.3, st.4)
                    } else if flag == "--warmup-steps"@ {
                        (st.0, st.1, st.2, n as usize, st.4)
                    } else {
                        (st.0, st.1, st.2, st.3, n as usize)
                    },
                ),
                Err(k) => Err(ArgError::InvalidValue { flag_at: i as usize, kind: k }),
            }
        } else {
            Err(ArgError::UnknownArgument { flag_at: i as usize })
        }
    }
}

/// What the forward benchmark makes of its arguments: the scanned settings
/// when they have at least one grid, a non-zero step count and a non-zero
/// trial count, else the first problem found.
pub open spec fn bench_outcome(args: Seq<Seq<char>>) -> Result<BenchSettings, ArgError> {
    match bench_scan(args, 0, bench_default_settings()) {
        Err(e) => Err(e),
        Ok(st) => if st.0.len() == 0 {
            Err(ArgError::EmptyGrids)
        } else if st.1 == 0 {
            Err(ArgError::ZeroSteps)
        } else if st.2 == 0 {
            Err(ArgError::ZeroTrials)
        } else {
            Ok(st)
        },
    }
}

/// The setting that a flag writes: 0 the grid list, 1 the timed steps,
/// 2 the trials, 3 the warm-up steps, 4 the radius; -1 for any other text.
pub open spec fn bench_flag_field(flag: Seq<char>) -> int {
    if flag == "--grids"@ {
        0
    } else if flag == "--steps"@ {
        1
    } else if flag == "--trials"@ {
        2
    } else if flag == "--warmup-steps"@ {
        3
    } else if flag == "--radius"@ {
        4
    } else {
        -1
    }
}

/// Two scan results fail alike, or both succeed with the same settings in
/// every position but `k`.
pub open spec fn agree_except(
    a: Result<BenchSettings, ArgError>,
    b: Result<BenchSettings, ArgError>,
    k: int,
) -> bool {
    match (a, b) {
        (Ok(x), Ok(y)) => {
            &&& (k == 0 || x.0 == y.0)
            &&& (k == 1 || x.1 == y.1)
            &&& (k == 2 || x.2 == y.2)
            &&& (k == 3 || x.3 == y.3)
            &&& (k == 4 || x.4 == y.4)
        },
        (Err(e1), Err(e2)) => e1 == e2,
        _ => false,
    }
}

/// Each setting evolves on its own: scanning the same arguments from two
/// starting settings fails alike in both or succeeds in both, and every
/// setting that started equal ends equal.
pub proof fn lemma_bench_scan_frame(
    args: Seq<Seq<char>>,
    i: nat,
    st1: BenchSettings,
    st2: BenchSettings,
)
    ensures
        bench_scan(args, i, st1) is Ok <==> bench_scan(args, i, st2) is Ok,
        bench_scan(args, i, st1) is Err ==> bench_scan(args, i, st1) == bench_scan(args, i, st2),
        bench_scan(args, i, st1) matches Ok(r1) ==> bench_scan(args, i, st2) matches Ok(r2) && {
            &&& st1.0 == st2.0 ==> r1.0 == r2.0
            &&& st1.1 == st2.1 ==> r1.1 == r2.1
            &&& st1.2 == st2.2 ==> r1.2 == r2.2
            &&& st1.3 == st2.3 ==> r1.3 == r2.3
            &&& st1.4 == st2.4 ==> r1.4 == r2.4
        },
    decreases args.len() - i,
{
    if i + 1 < args.len() {
        let flag = args[i as int];
        let value = args[i as int + 1];
        if flag == "--grids"@ {
            if let Ok(ns) = parse_list(value, usize::MAX as nat) {
                lemma_bench_scan_frame(
                    args,
                    i + 2,
                    (as_usizes(ns), st1.1, st1.2, st1.3, st1.4),
                    (as_usizes(ns), st2.1, st2.2, st2.3, st2.4),
                );
            }
        } else if flag == "--steps"@ || flag == "--trials"@ || flag == "--warmup-steps"@ || flag
            == "--radius"@ {
            if let Ok(n) = parse_unsigned(value, usize::MAX as nat) {
                if flag == "--steps"@ {
                    lemma_bench_scan_frame(
                        args,
                        i + 2,
                        (st1.0, n as usize, st1.2, st1.3, st1.4),
                        (st2.0, n as usize, st2.2, st2.3, st2.4),
                    );
                } else if flag == "--trials"@ {
                    lemma_bench_scan_frame(
                        args,
                        i + 2,
                        (st1.0, st1.1, n as usize, st1.3, st1.4),
                        (st2.0, st2.1, n as usize, st2.3, st2.4),
                    );
                } else if flag == "--warmup-steps"@ {
                    lemma_bench_scan_frame(
                        args,
                        i + 2,
                        (st1.0, st1.1, st1.2, n as usize, st1.4),
                        (st2.0, st2.1, st2.2, n as usize, st2.4),
                    );
                } else {
                    lemma_bench_scan_frame(
                        args,
                        i + 2,
                        (st1.0, st1.1, st1.2, st1.3, n as usize),
                        (st2.0, st2.1, st2.2, st2.3, n as usize),
                    );
                }
            }
        }
    }
}

/// One `--flag value` pair read on its own: a valid value lands in the
/// flag's setting and nothing else changes; an invalid one is reported at
/// the flag; any other flag is unknown.
pub proof fn lemma_bench_single_flag(flag: Seq<char>, value: Seq<char>, st: BenchSettings)
    ensures
        ({
            let r = bench_scan(seq![flag, value], 0, st);
            let num = parse_unsigned(value, usize::MAX as nat);
            &&& flag == "--grids"@ ==> r == match parse_list(value, usize::MAX as nat) {
                Ok(ns) => Ok((as_usizes(ns), st.1, st.2, st.3, st.4)),
                Err(k) => Err(ArgError::InvalidValue { flag_at: 0, kind: k }),
            }
            &&& flag == "--steps"@ ==> r == match num {
                Ok(n) => Ok((st.0, n as usize, st.2, st.3, st.4)),
                Err(k) => Err(ArgError::InvalidValue { flag_at: 0, kind: k }),
            }
            &&& flag == "--trials"@ ==> r == match num {
                Ok(n) => Ok((st.0, st.1, n as usize, st.3, st.4)),
                Err(k) => Err(ArgError::InvalidValue { flag_at: 0, kind: k }),
            }
            &&& flag == "--warmup-steps"@ ==> r == match num {
                Ok(n) => Ok((st.0, st.1, st.2, n as usize, st.4)),
                Err(k) => Err(ArgError::InvalidValue { flag_at: 0, kind: k }),
            }
            &&& flag == "--radius"@ ==> r == match num {
                Ok(n) => Ok((st.0, st.1, st.2, st.3, n as usize)),
                Err(k) => Err(ArgError::InvalidValue { flag_at: 0, kind: k }),
            }
            &&& bench_flag_field(flag) < 0 ==> r == Err::<BenchSettings, ArgError>(
                ArgError::UnknownArgument { flag_at: 0 },
            )
        }),
{
    reveal_strlit("--grids");
    reveal_strlit("--steps");
    reveal_strlit("--trials");
    reveal_strlit("--warmup-steps");
    reveal_strlit("--radius");
    reveal_with_fuel(bench_scan, 2);
    assert("--grids"@[2] == 'g' && "--steps"@[2] == 's' && "--trials"@[2] == 't'
        && "--warmup-steps"@[2] == 'w' && "--radius"@[2] == 'r');
    assert("--grids"@ != "--steps"@ && "--grids"@ != "--trials"@ && "--grids"@ != "--warmup-steps"@
        && "--grids"@ != "--radius"@);
    assert("--steps"@ != "--trials"@ && "--steps"@ != "--warmup-steps"@ && "--steps"@
        != "--radius"@);
    assert("--trials"@ != "--warmup-steps"@ && "--trials"@ != "--radius"@);
    assert("--warmup-steps"@ != "--radius"@);
    let args = seq![flag, value];
    assert(args[0] == flag);
    assert(args[1] == value);
}

/// A flag with a valid value changes only its own setting: reading the
/// pair at `i` and going on ends, in every other setting, where skipping
/// the pair ends.  In particular `--grids` leaves the step count, trials,
/// warm-up steps and radius as they were set before or after it.
pub proof fn lemma_bench_flag_sets_only_its_field(args: Seq<Seq<char>>, i: nat, st: BenchSettings)
    requires
        i + 1 < args.len(),
        bench_flag_field(args[i as int]) >= 0,
        bench_flag_field(args[i as int]) == 0 ==> parse_list(args[i as int + 1], usize::MAX as nat) is Ok,
        bench_flag_field(args[i as int]) > 0 ==> parse_unsigned(
            args[i as int + 1],
            usize::MAX as nat,
        ) is Ok,
    ensures
        agree_except(
            bench_scan(args, i, st),
            bench_scan(args, i + 2, st),
            bench_flag_field(args[i as int]),
        ),
{
    let flag = args[i as int];
    let value = args[i as int + 1];
    let k = bench_flag_field(flag);
    let next: BenchSettings = if k == 0 {
        let ns = parse_list(value, usize::MAX as nat)->Ok_0;
        (as_usizes(ns), st.1, st.2, st.3, st.4)
    } else {
        let n = parse_unsigned(value, usize::MAX as nat)->Ok_0;
        if k == 1 {
            (st.0, n as usize, st.2, st.3, st.4)
        } else if k == 2 {
            (st.0, st.1, n as usize, st.3, st.4)
        } else if k == 3 {
            (st.0, st.1, st.2, n as usize, st.4)
        } else {
            (st.0, st.1, st.2, st.3, n as usize)
        }
    };
    assert(bench_scan(args, i, st) == bench_scan(args, i + 2, next));
    lemma_bench_scan_frame(args, i + 2, next, st);
}

/// The characters of each argument.
pub open spec fn arg_chars(args: Seq<String>) -> Seq<Seq<char>> {
    args.map_values(|s: String| s@)
}

/// Options of the forward-solver benchmark.
#[derive(Debug)]
pub struct BenchForwardArgs {
    pub grids: Vec<usize>,
    pub steps: usize,
    pub trials: usize,
    pub warmup_steps: usize,
    pub radius: usize,
}

impl BenchForwardArgs {
    /// The options as plain values.
    pub open spec fn settings(&self) -> BenchSettings {
        (self.grids@, self.steps, self.trials, self.warmup_steps, self.radius)
    }

    /// The options used when no flag overrides them.
    pub fn defaults() -> (a: Self)
        ensures
            a.settings() == bench_default_settings(),
    {
        let mut grids: Vec<usize> = Vec::new();
        grids.push(128);
        grids.push(256);
        grids.push(512);
        assert(grids@ == seq![128usize, 256usize, 512usize]);
        BenchForwardArgs { grids, steps: 500, trials: 5, warmup_steps: 25, radius: 5 }
    }

    /// Read `--grids LIST`, `--steps N`, `--trials N`, `--warmup-steps N`
    /// and `--radius N` pairs, then check that at least one grid, one step
    /// and one trial remain.
    pub fn parse(args: &[String]) -> (r: Result<Self, ArgError>)
        ensures
            match r {
                Ok(a) => bench_outcome(arg_chars(args@)) == Ok::<BenchSettings, ArgError>(
                    a.settings(),
                ),
                Err(e) => bench_outcome(arg_chars(args@)) == Err::<BenchSettings, ArgError>(e),
            },
    {
        let ghost chars = arg_chars(args@);
        let mut out = Self::defaults();
        let mut i: usize = 0;
        while i < args.len()
            invariant
                chars == arg_chars(args@),
                chars.len() == args@.len(),
                i <= args@.len(),
                bench_scan(chars, 0, bench_default_settings()) == bench_scan(
                    chars,
                    i as nat,
                    out.settings(),
                ),
            decreases args@.len() - i,
        {
            if i + 1 >= args.len() {
                return Err(ArgError::MissingValue { flag_at: i });
            }
            let flag = args[i].as_str();
            let value = args[i + 1].as_str();
            assert(flag@ == chars[i as int]);
            assert(value@ == chars[i + 1]);
            if str_eq(flag, "--grids") {
                match parse_usize_list(value) {
                    Ok(grids) => {
                        proof {
                            assert(grids@ == as_usizes(grids@.map_values(|x: usize| x as nat)));
                        }
                        out.grids = grids;
                    },
                    Err(kind) => {
                        return Err(ArgError::InvalidValue { flag_at: i, kind });
                    },
                }
            } else if str_eq(flag, "--steps") || str_eq(flag, "--trials") || str_eq(
                flag,
                "--warmup-steps",
            ) || str_eq(flag, "--radius") {
                match parse_usize(value) {
                    Ok(n) => {
                        if str_eq(flag, "--steps") {
                            out.steps = n;
                        } else if str_eq(flag, "--trials") {
                            out.trials = n;
                        } else if str_eq(flag, "--warmup-steps") {
                            out.warmup_steps = n;
                        } else {
                            out.radius = n;
                        }
                    },
                    Err(kind) => {
                        return Err(ArgError::InvalidValue { flag_at: i, kind });
                    },
                }
            } else {
                return Err(ArgError::UnknownArgument { flag_at: i });
            }
            i += 2;
        }
        if out.grids.len() == 0 {
            Err(ArgError::EmptyGrids)
        } else if out.steps == 0 {
            Err(ArgError::ZeroSteps)
        } else if out.trials == 0 {
            Err(ArgError::ZeroTrials)
        } else {
            Ok(out)
        }
    }
}


/// The non-negative counts an experiment reads from its arguments.
#[derive(Clone, Copy, Debug)]
pub struct Counts {
    pub width: usize,
    pub height: usize,
    pub steps: usize,
    pub trials: usize,
    pub seeds: usize,
    pub feed_count: usize,
    pub kill_count: usize,
}

/// Which conditions, beyond positive width and height, an experiment
/// demands of its counts.
#[derive(Clone, Copy, Debug)]
pub struct CountRules {
    pub square: bool,
    pub steps: bool,
    pub trials: bool,
    pub seeds: bool,
    pub feed_count: bool,
    pub kill_count: bool,
}

/// The first condition that the counts break.
#[derive(Clone, Copy, Debug, PartialEq, Eq, Structural)]
pub enum CountError {
    ZeroWidth,
    ZeroHeight,
    NotSquare,
    ZeroSteps,
    ZeroTrials,
    NoSeeds,
    ZeroFeedCount,
    ZeroKillCount,
}

/// The first broken condition, in the order width, height, squareness,
/// steps, trials, seeds, feed count, kill count; `None` if all hold.
pub open spec fn first_count_error(c: Counts, rules: CountRules) -> Option<CountError> {
    if c.width == 0 {
        Some(CountError::ZeroWidth)
    } else if c.height == 0 {
        Some(CountError::ZeroHeight)
    } else if rules.square && c.width != c.height {
        Some(CountError::NotSquare)
    } else if rules.steps && c.steps == 0 {
        Some(CountError::ZeroSteps)
    } else if rules.trials && c.trials == 0 {
        Some(CountError::ZeroTrials)
    } else if rules.seeds && c.seeds == 0 {
        Some(CountError::NoSeeds)
    } else if rules.feed_count && c.feed_count == 0 {
        Some(CountError::ZeroFeedCount)
    } else if rules.kill_count && c.kill_count == 0 {
        Some(CountError::ZeroKillCount)
    } else {
        None
    }
}

/// Every condition that `rules` demands of `c` holds.
pub open spec fn counts_ok(c: Counts, rules: CountRules) -> bool {
    &&& c.width > 0
    &&& c.height > 0
    &&& rules.square ==> c.width == c.height
    &&& rules.steps ==> c.steps > 0
    &&& rules.trials ==> c.trials > 0
    &&& rules.seeds ==> c.seeds > 0
    &&& rules.feed_count ==> c.feed_count > 0
    &&& rules.kill_count ==> c.kill_count > 0
}

/// The counts are accepted exactly when every demanded condition holds, and
/// each error names a condition that is demanded and broken: a rule that is
/// off never causes a rejection.
pub proof fn lemma_count_error_causes(c: Counts, rules: CountRules)
    ensures
        first_count_error(c, rules) is None <==> counts_ok(c, rules),
        first_count_error(c, rules) == Some(CountError::ZeroWidth) ==> c.width == 0,
        first_count_error(c, rules) == Some(CountError::ZeroHeight) ==> c.height == 0,
        first_count_error(c, rules) == Some(CountError::NotSquare) ==> rules.square && c.width
            != c.height,
        first_count_error(c, rules) == Some(CountError::ZeroSteps) ==> rules.steps && c.steps
            == 0,
        first_count_error(c, rules) == Some(CountError::ZeroTrials) ==> rules.trials && c.trials
            == 0,
        first_count_error(c, rules) == Some(CountError::NoSeeds) ==> rules.seeds && c.seeds == 0,
        first_count_error(c, rules) == Some(CountError::ZeroFeedCount) ==> rules.feed_count
            && c.feed_count == 0,
        first_count_error(c, rules) == Some(CountError::ZeroKillCount) ==> rules.kill_count
            && c.kill_count == 0,
{
}

/// Check the counts against the rules, reporting the first broken one.
pub fn check_counts(c: &Counts, rules: &CountRules) -> (r: Result<(), CountError>)
    ensures
        match first_count_error(*c, *rules) {
            None => r == Ok::<(), CountError>(()),
            Some(e) => r == Err::<(), CountError>(e),
        },
        r is Ok <==> counts_ok(*c, *rules),
        r == Err::<(), CountError>(CountError::NotSquare) ==> rules.square && c.width != c.height,
{
    proof {
        lemma_count_error_causes(*c, *rules);
    }
    if c.width == 0 {
        Err(CountError::ZeroWidth)
    } else if c.height == 0 {
        Err(CountError::ZeroHeight)
    } else if rules.square && c.width != c.height {
        Err(CountError::NotSquare)
    } else if rules.steps && c.steps == 0 {
        Err(CountError::ZeroSteps)
    } else if rules.trials && c.trials == 0 {
        Err(CountError::ZeroTrials)
    } else if rules.seeds && c.seeds == 0 {
        Err(CountError::NoSeeds)
    } else if rules.feed_count && c.feed_count == 0 {
        Err(CountError::ZeroFeedCount)
    } else if rules.kill_count && c.kill_count == 0 {
        Err(CountError::ZeroKillCount)
    } else {
        Ok(())
    }
}

} // verus!
