//! Text building blocks: characters, numerals, splitting, joining and trimming.

use vstd::prelude::*;
use vstd::string::StringExecFns;

verus! {

/// `String::push` appends one character to the end of the string.
pub assume_specification[ String::push ](s: &mut String, c: char)
    ensures
        final(s)@ == old(s)@.push(c),
;

/// The views of the items of a sequence.
pub open spec fn views<T: View>(items: Seq<T>) -> Seq<T::V> {
    items.map_values(|item: T| item@)
}

/// The view of an optional value.
pub open spec fn opt_view<T: View>(value: Option<T>) -> Option<T::V> {
    match value {
        Some(v) => Some(v@),
        None => None,
    }
}

/// The views of a sequence that grew by one item.
pub proof fn lemma_views_push<T: View>(items: Seq<T>, item: T)
    ensures
        views(items.push(item)) == views(items).push(item@),
{
    assert(views(items.push(item)) =~= views(items).push(item@));
}

/// The characters of `s`, in order.
pub fn to_chars(s: &str) -> (v: Vec<char>)
    ensures
        v@ == s@,
{
    let mut v: Vec<char> = Vec::new();
    for c in it: s.chars()
        invariant
            it.seq() == s@,
            v@ == it.seq().take(it.index() as int),
    {
        v.push(c);
    }
    v
}

/// The string made of the characters `v[from..to]`.
pub fn from_chars(v: &Vec<char>, from: usize, to: usize) -> (s: String)
    requires
        from <= to <= v@.len(),
    ensures
        s@ == v@.subrange(from as int, to as int),
{
    let mut s = String::new();
    let mut i: usize = from;
    while i < to
        invariant
            from <= i <= to <= v@.len(),
            s@ == v@.subrange(from as int, i as int),
        decreases to - i,
    {
        s.push(v[i]);
        i = i + 1;
    }
    s
}

/// Whether the two strings hold the same characters.
pub fn same_text(a: &str, b: &str) -> (r: bool)
    ensures
        r == (a@ == b@),
{
    let x = String::from_str(a);
    let y = String::from_str(b);
    x == y
}

/// `a` followed by `b`.
pub fn concat(a: &str, b: &str) -> (s: String)
    ensures
        s@ == a@ + b@,
{
    let mut s = String::from_str(a);
    s.append(b);
    s
}

/// `a`, `b` and `c`, one after the other.
pub fn concat3(a: &str, b: &str, c: &str) -> (s: String)
    ensures
        s@ == a@ + b@ + c@,
{
    let mut s = concat(a, b);
    s.append(c);
    s
}

/// Appends `s` to `list`.
pub fn push_text(list: &mut Vec<String>, s: &str)
    ensures
        views(final(list)@) == views(old(list)@).push(s@),
{
    let text = String::from_str(s);
    proof {
        lemma_views_push(list@, text);
    }
    list.push(text);
}

/// Whether `s` begins with `prefix`.
pub open spec fn begins_with(s: Seq<char>, prefix: Seq<char>) -> bool {
    prefix.len() <= s.len() && s.take(prefix.len() as int) == prefix
}

/// Whether `s` begins with the characters of `prefix`.
pub fn starts_with_chars(s: &str, prefix: &Vec<char>) -> (r: bool)
    ensures
        r == begins_with(s@, prefix@),
{
    let v = to_chars(s);
    if v.len() < prefix.len() {
        return false;
    }
    let mut i: usize = 0;
    while i < prefix.len()
        invariant
            i <= prefix@.len() <= v@.len(),
            v@ == s@,
            s@.take(i as int) == prefix@.take(i as int),
        decreases prefix@.len() - i,
    {
        if v[i] != prefix[i] {
            assert(s@.take(prefix@.len() as int)[i as int] != prefix@[i as int]);
            return false;
        }
        assert(s@.take(i + 1) =~= s@.take(i as int).push(s@[i as int]));
        assert(prefix@.take(i + 1) =~= prefix@.take(i as int).push(prefix@[i as int]));
        i = i + 1;
    }
    assert(prefix@.take(i as int) =~= prefix@);
    true
}

// ---------------------------------------------------------------------------------------------
// Numerals
// ---------------------------------------------------------------------------------------------

/// The digit of value `d`, for `d` below sixteen.
pub open spec fn digit(d: nat) -> char {
    if d < 10 {
        (('0' as nat + d) as nat) as char
    } else {
        (('a' as nat + d - 10) as nat) as char
    }
}

/// The numeral of `n` in base `base`, most significant digit first and without leading zeros.
pub open spec fn numeral(n: nat, base: nat) -> Seq<char>
    decreases n,
{
    if base < 2 || n < base {
        seq![digit(n)]
    } else {
        proof {
            vstd::arithmetic::div_mod::lemma_div_decreases(n as int, base as int);
        }
        numeral(n / base, base).push(digit(n % base))
    }
}

fn digit_char(d: u8) -> (c: char)
    requires
        d < 16,
    ensures
        c == digit(d as nat),
{
    if d < 10 {
        (48 + d) as char
    } else {
        (97 + (d - 10)) as char
    }
}

/// The numeral of `n` in base `base`.
pub fn numeral_text(n: u128, base: u8) -> (s: String)
    requires
        2 <= base <= 16,
    ensures
        s@ == numeral(n as nat, base as nat),
{
    let mut digits: Vec<char> = Vec::new();
    let mut rest: u128 = n;
    while rest >= base as u128
        invariant
            2 <= base <= 16,
            numeral(n as nat, base as nat) == numeral(rest as nat, base as nat)
                + digits@.reverse(),
        decreases rest,
    {
        let d: u8 = (rest % (base as u128)) as u8;
        proof {
            vstd::arithmetic::div_mod::lemma_div_decreases(rest as int, base as int);
            assert(digits@.push(digit(d as nat)).reverse() =~= seq![digit(d as nat)]
                + digits@.reverse());
            assert(numeral(rest as nat, base as nat) == numeral(
                rest as nat / base as nat,
                base as nat,
            ).push(digit(d as nat)));
            assert(numeral(rest as nat / base as nat, base as nat).push(digit(d as nat))
                + digits@.reverse() =~= numeral(rest as nat / base as nat, base as nat) + (seq![
                digit(d as nat),
            ] + digits@.reverse()));
        }
        digits.push(digit_char(d));
        rest = rest / (base as u128);
    }
    let ghost tail = digits@.reverse();
    digits.push(digit_char(rest as u8));
    proof {
        assert(digits@.reverse() =~= seq![digit(rest as nat)] + tail);
    }
    let mut s = String::new();
    let mut i: usize = digits.len();
    while i > 0
        invariant
            i <= digits@.len(),
            s@ == digits@.reverse().take(digits@.len() - i),
        decreases i,
    {
        i = i - 1;
        proof {
            assert(digits@.reverse().take(digits@.len() - i) =~= digits@.reverse().take(
                digits@.len() - i - 1,
            ).push(digits@[i as int]));
        }
        s.push(digits[i]);
    }
    assert(digits@.reverse().take(digits@.len() as int) =~= digits@.reverse());
    s
}

/// `count` zero digits.
pub open spec fn zeros(count: nat) -> Seq<char> {
    Seq::new(count, |i: int| '0')
}

/// The decimal numeral of `n`, filled up with zeros on the left to at least `width` characters.
pub open spec fn padded(n: nat, width: nat) -> Seq<char> {
    let text = numeral(n, 10);
    if text.len() < width {
        zeros((width - text.len()) as nat) + text
    } else {
        text
    }
}

/// The decimal numeral of `n`, filled up with zeros on the left to at least `width` characters.
pub fn padded_text(n: usize, width: usize) -> (s: String)
    ensures
        s@ == padded(n as nat, width as nat),
{
    let text = numeral_text(n as u128, 10);
    let have: usize = to_chars(text.as_str()).len();
    if have >= width {
        return text;
    }
    let mut s = String::new();
    let missing: usize = width - have;
    let mut i: usize = 0;
    while i < missing
        invariant
            i <= missing,
            s@ == zeros(i as nat),
        decreases missing - i,
    {
        s.push('0');
        i = i + 1;
        assert(s@ =~= zeros(i as nat));
    }
    s.append(text.as_str());
    s
}

/// The number that a numeral of decimal digits stands for; `None` where another character occurs.
pub open spec fn decimal_value(s: Seq<char>) -> Option<nat>
    decreases s.len(),
{
    if s.len() == 0 {
        Some(0)
    } else if '0' <= s.last() <= '9' {
        match decimal_value(s.drop_last()) {
            Some(n) => Some((n * 10 + (s.last() as nat - '0' as nat)) as nat),
            None => None,
        }
    } else {
        None
    }
}

/// Why a text is no decimal numeral of type `usize`.
#[derive(Debug, Clone, Copy, PartialEq, Eq, Structural)]
pub enum NumeralError {
    /// There is no text.
    Empty,
    /// There is no digit, or a character that is none before the number became too large.
    InvalidDigit,
    /// The number became too large before a character that is no digit.
    TooLarge,
}

impl NumeralError {
    /// What to tell the user.
    pub open spec fn text(self) -> Seq<char> {
        match self {
            NumeralError::Empty => "cannot parse integer from empty string"@,
            NumeralError::InvalidDigit => "invalid digit found in string"@,
            NumeralError::TooLarge => "number too large to fit in target type"@,
        }
    }

    /// What to tell the user.
    pub fn message(&self) -> (s: &'static str)
        ensures
            s@ == self.text(),
    {
        match self {
            NumeralError::Empty => "cannot parse integer from empty string",
            NumeralError::InvalidDigit => "invalid digit found in string",
            NumeralError::TooLarge => "number too large to fit in target type",
        }
    }
}

/// Whether one of the first parts of `digits` is a numeral too large for `usize`.
pub open spec fn grows_too_large(digits: Seq<char>) -> bool {
    exists|i: int|
        0 <= i <= digits.len() && decimal_value(#[trigger] digits.take(i)) is Some
            && decimal_value(digits.take(i))->0 > usize::MAX
}

/// A numeral without its plus sign.
pub open spec fn unsigned(s: Seq<char>) -> Seq<char> {
    if s.len() > 0 && s[0] == '+' {
        s.drop_first()
    } else {
        s
    }
}

/// What a decimal numeral of type `usize` means: an optional plus sign, then at least one digit,
/// with a value that fits.
pub open spec fn usize_value(s: Seq<char>) -> Option<usize> {
    let digits = unsigned(s);
    if digits.len() == 0 {
        None
    } else {
        match decimal_value(digits) {
            Some(n) => if n <= usize::MAX {
                Some(n as usize)
            } else {
                None
            },
            None => None,
        }
    }
}

/// What a decimal numeral of type `usize` means, or why it means nothing.
pub open spec fn usize_reading(s: Seq<char>) -> Result<usize, NumeralError> {
    match usize_value(s) {
        Some(n) => Ok(n),
        None => Err(
            if s.len() == 0 {
                NumeralError::Empty
            } else if grows_too_large(unsigned(s)) {
                NumeralError::TooLarge
            } else {
                NumeralError::InvalidDigit
            },
        ),
    }
}

proof fn lemma_decimal_value_grows(s: Seq<char>, i: int)
    requires
        0 <= i <= s.len(),
    ensures
        decimal_value(s) is Some ==> decimal_value(s.take(i)) is Some && decimal_value(
            s.take(i),
        )->0 <= decimal_value(s)->0,
    decreases s.len() - i,
{
    if i == s.len() {
        assert(s.take(i) =~= s);
    } else {
        lemma_decimal_value_grows(s, i + 1);
        assert(s.take(i + 1).drop_last() =~= s.take(i));
    }
}

/// Up to a character that is no digit, the numeral is no larger than the part before it.
proof fn lemma_stays_small(digits: Seq<char>, i: int)
    requires
        0 <= i < digits.len(),
        !('0' <= digits[i] <= '9'),
        decimal_value(digits.take(i)) is Some,
        decimal_value(digits.take(i))->0 <= usize::MAX,
    ensures
        !grows_too_large(digits),
{
    assert forall|k: int|
        0 <= k <= digits.len() && decimal_value(#[trigger] digits.take(k)) is Some implies
        decimal_value(digits.take(k))->0 <= usize::MAX by {
        if k <= i {
            assert(digits.take(i).take(k) =~= digits.take(k));
            lemma_decimal_value_grows(digits.take(i), k);
        } else {
            lemma_decimal_value_grows(digits.take(k), i + 1);
            assert(digits.take(k).take(i + 1) =~= digits.take(i + 1));
            assert(digits.take(i + 1).last() == digits[i]);
        }
    }
}

/// Reads a decimal numeral of type `usize`, or tells why there is none.
pub fn read_usize(s: &str) -> (r: Result<usize, NumeralError>)
    ensures
        r == usize_reading(s@),
{
    let v = to_chars(s);
    if v.len() == 0 {
        return Err(NumeralError::Empty);
    }
    let start: usize = if v[0] == '+' {
        1
    } else {
        0
    };
    let ghost digits = unsigned(s@);
    assert(digits =~= v@.subrange(start as int, v@.len() as int));
    if start == v.len() {
        assert(!grows_too_large(digits)) by {
            assert forall|k: int|
                0 <= k <= digits.len() && decimal_value(#[trigger] digits.take(k)) is Some implies
                decimal_value(digits.take(k))->0 <= usize::MAX by {
                assert(digits.take(k) =~= Seq::<char>::empty());
            }
        }
        return Err(NumeralError::InvalidDigit);
    }
    let mut n: usize = 0;
    let mut i: usize = start;
    assert(digits.take(0) =~= Seq::<char>::empty());
    while i < v.len()
        invariant
            start <= i <= v@.len(),
            v@ == s@,
            s@.len() > 0,
            digits == unsigned(s@),
            digits == v@.subrange(start as int, v@.len() as int),
            digits.len() > 0,
            start <= 1,
            decimal_value(digits.take(i - start)) == Some(n as nat),
        decreases v@.len() - i,
    {
        let c = v[i];
        proof {
            assert(digits.take(i + 1 - start).drop_last() =~= digits.take(i - start));
            assert(digits.take(i + 1 - start).last() == c);
            lemma_decimal_value_grows(digits, i + 1 - start);
        }
        if c < '0' || c > '9' {
            proof {
                assert(digits[i - start] == c);
                lemma_stays_small(digits, i - start);
            }
            return Err(NumeralError::InvalidDigit);
        }
        let d: usize = (c as u32 - '0' as u32) as usize;
        match n.checked_mul(10) {
            Some(m) => match m.checked_add(d) {
                Some(k) => {
                    n = k;
                },
                None => {
                    assert(decimal_value(digits.take(i + 1 - start))->0 > usize::MAX);
                    return Err(NumeralError::TooLarge);
                },
            },
            None => {
                assert(decimal_value(digits.take(i + 1 - start))->0 > usize::MAX);
                return Err(NumeralError::TooLarge);
            },
        }
        i = i + 1;
    }
    assert(digits.take(i - start) =~= digits);
    Ok(n)
}

/// Reads a decimal numeral of type `usize`.
pub fn parse_usize(s: &str) -> (r: Option<usize>)
    ensures
        r == usize_value(s@),
{
    match read_usize(s) {
        Ok(n) => Some(n),
        Err(_) => None,
    }
}

/// A decimal numeral is made of decimal digits.
pub proof fn lemma_numeral_digits(n: nat)
    ensures
        numeral(n, 10).len() > 0,
        forall|i: int| 0 <= i < numeral(n, 10).len() ==> '0' <= #[trigger] numeral(n, 10)[i] <= '9',
    decreases n,
{
    if n >= 10 {
        lemma_numeral_digits(n / 10);
    }
}

/// Reading a decimal numeral gives back the number it was written for.
pub proof fn lemma_numeral_value(n: nat)
    ensures
        decimal_value(numeral(n, 10)) == Some(n),
    decreases n,
{
    reveal_with_fuel(decimal_value, 2);
    if n >= 10 {
        let rest = numeral(n / 10, 10);
        lemma_numeral_value(n / 10);
        assert(numeral(n, 10).drop_last() =~= rest);
        assert(numeral(n, 10).last() == digit(n % 10));
    } else {
        assert(seq![digit(n)].drop_last() =~= Seq::<char>::empty());
    }
}

/// A `usize` that was written as a decimal numeral is read back.
pub proof fn lemma_usize_round_trip(n: usize)
    ensures
        usize_value(numeral(n as nat, 10)) == Some(n),
{
    lemma_numeral_digits(n as nat);
    lemma_numeral_value(n as nat);
    assert(numeral(n as nat, 10)[0] != '+');
}

/// Leading zeros do not change what a numeral stands for.
proof fn lemma_zeros_value(count: nat, s: Seq<char>)
    ensures
        decimal_value(zeros(count) + s) == decimal_value(s),
    decreases count + s.len(),
{
    let whole = zeros(count) + s;
    if s.len() > 0 {
        assert(whole.drop_last() =~= zeros(count) + s.drop_last());
        assert(whole.last() == s.last());
        lemma_zeros_value(count, s.drop_last());
    } else if count > 0 {
        assert(whole.drop_last() =~= zeros((count - 1) as nat) + s);
        assert(whole.last() == '0');
        lemma_zeros_value((count - 1) as nat, s);
    } else {
        assert(whole =~= s);
    }
}

/// A numeral that was filled up with zeros is read back.
pub proof fn lemma_padded_value(n: nat, width: nat)
    ensures
        decimal_value(padded(n, width)) == Some(n),
{
    lemma_numeral_value(n);
    let text = numeral(n, 10);
    if text.len() < width {
        lemma_zeros_value((width - text.len()) as nat, text);
    }
}

// ---------------------------------------------------------------------------------------------
// Splitting and joining
// ---------------------------------------------------------------------------------------------

/// The pieces of `s` between the occurrences of `sep`; one empty piece for the empty text.
pub open spec fn split(s: Seq<char>, sep: char) -> Seq<Seq<char>>
    decreases s.len(),
{
    if s.len() == 0 {
        seq![Seq::empty()]
    } else {
        let before = split(s.drop_last(), sep);
        if s.last() == sep {
            before.push(Seq::empty())
        } else {
            before.drop_last().push(before.last().push(s.last()))
        }
    }
}

/// `pieces` with `sep` between each two of them.
pub open spec fn join(pieces: Seq<Seq<char>>, sep: Seq<char>) -> Seq<char>
    decreases pieces.len(),
{
    if pieces.len() == 0 {
        Seq::empty()
    } else if pieces.len() == 1 {
        pieces[0]
    } else {
        join(pieces.drop_last(), sep) + sep + pieces.last()
    }
}

/// There is always at least one piece.
pub proof fn lemma_split_nonempty(s: Seq<char>, sep: char)
    ensures
        split(s, sep).len() > 0,
    decreases s.len(),
{
    if s.len() > 0 {
        lemma_split_nonempty(s.drop_last(), sep);
    }
}

/// No piece holds the separator.
pub proof fn lemma_split_pieces(s: Seq<char>, sep: char)
    ensures
        forall|i: int| 0 <= i < split(s, sep).len() ==> !(#[trigger] split(s, sep)[i]).contains(sep),
    decreases s.len(),
{
    if s.len() > 0 {
        lemma_split_nonempty(s.drop_last(), sep);
        lemma_split_pieces(s.drop_last(), sep);
        let before = split(s.drop_last(), sep);
        let all = split(s, sep);
        assert forall|i: int| 0 <= i < all.len() implies !(#[trigger] all[i]).contains(sep) by {
            if i < all.len() - 1 {
                assert(all[i] == before[i]);
            } else if s.last() != sep {
                let piece = before.last();
                assert(piece == before[before.len() - 1]);
                if all[i].contains(sep) {
                    let k = all[i].index_of(sep);
                    assert(piece[k] == sep);
                }
            }
        }
    }
}

/// The first piece is empty where the text begins with the separator.
pub proof fn lemma_split_first(s: Seq<char>, sep: char)
    requires
        s.len() > 0,
    ensures
        s[0] == sep <==> split(s, sep)[0].len() == 0,
    decreases s.len(),
{
    let before = split(s.drop_last(), sep);
    lemma_split_nonempty(s.drop_last(), sep);
    if s.len() > 1 {
        lemma_split_first(s.drop_last(), sep);
        assert(s.drop_last()[0] == s[0]);
        if before.len() == 1 && s.last() != sep {
            assert(split(s, sep)[0] == before[0].push(s.last()));
            assert(before[0].len() > 0) by {
                if s[0] == sep {
                    lemma_split_leading(s.drop_last(), sep);
                }
            }
        } else {
            assert(split(s, sep)[0] == before[0]);
        }
    } else {
        assert(s.drop_last() =~= Seq::<char>::empty());
    }
}

/// Text that begins with the separator has more than one piece.
proof fn lemma_split_leading(s: Seq<char>, sep: char)
    requires
        s.len() > 0,
        s[0] == sep,
    ensures
        split(s, sep).len() > 1,
    decreases s.len(),
{
    lemma_split_nonempty(s.drop_last(), sep);
    if s.len() > 1 {
        lemma_split_leading(s.drop_last(), sep);
    }
}

/// Where two texts meet, the last piece of the one and the first of the other become one piece.
pub proof fn lemma_split_append(s: Seq<char>, t: Seq<char>, sep: char)
    ensures
        split(s + t, sep) == split(s, sep).drop_last() + seq![
            split(s, sep).last() + split(t, sep)[0],
        ] + split(t, sep).drop_first(),
    decreases t.len(),
{
    lemma_split_nonempty(s, sep);
    lemma_split_nonempty(t, sep);
    let a = split(s, sep);
    if t.len() == 0 {
        assert(s + t =~= s);
        assert(a.last() + Seq::empty() =~= a.last());
        assert(a =~= a.drop_last() + seq![a.last() + split(t, sep)[0]] + split(t, sep).drop_first());
    } else {
        let u = t.drop_last();
        lemma_split_append(s, u, sep);
        lemma_split_nonempty(u, sep);
        let b = split(u, sep);
        assert((s + t).drop_last() =~= s + u);
        assert((s + t).last() == t.last());
        let before = split(s + u, sep);
        if t.last() == sep {
            assert(split(t, sep) == b.push(Seq::empty()));
            assert(b.push(Seq::empty()).drop_first() =~= b.drop_first().push(Seq::empty()));
            assert(before.push(Seq::empty()) =~= a.drop_last() + seq![a.last() + b[0]]
                + b.drop_first().push(Seq::empty()));
        } else if b.len() == 1 {
            assert(b.drop_first() =~= Seq::<Seq<char>>::empty());
            assert(before =~= a.drop_last().push(a.last() + b[0]));
            assert(before.drop_last() =~= a.drop_last());
            assert((a.last() + b[0]).push(t.last()) =~= a.last() + b[0].push(t.last()));
            assert(split(t, sep) =~= seq![b[0].push(t.last())]);
            assert(split(s + t, sep) =~= a.drop_last() + seq![a.last() + split(t, sep)[0]]
                + split(t, sep).drop_first());
        } else {
            assert(before.last() == b.last());
            assert(split(t, sep)[0] == b[0]);
            assert(split(s + t, sep) =~= a.drop_last() + seq![a.last() + split(t, sep)[0]]
                + split(t, sep).drop_first());
        }
    }
}

/// Pieces that were joined by the separator are found again.
pub proof fn lemma_split_join(pieces: Seq<Seq<char>>, sep: char)
    requires
        pieces.len() > 0,
        forall|i: int| 0 <= i < pieces.len() ==> !(#[trigger] pieces[i]).contains(sep),
    ensures
        split(join(pieces, seq![sep]), sep) == pieces,
    decreases pieces.len(),
{
    let last = pieces.last();
    assert(last == pieces[pieces.len() - 1]);
    if pieces.len() == 1 {
        lemma_split_tail(Seq::empty(), last, sep);
        assert(Seq::<char>::empty() + last =~= last);
        assert(split(Seq::<char>::empty(), sep) =~= seq![Seq::<char>::empty()]);
        assert(split(last, sep) =~= pieces);
    } else {
        let before = pieces.drop_last();
        assert forall|i: int| 0 <= i < before.len() implies !(#[trigger] before[i]).contains(
            sep,
        ) by {
            assert(before[i] == pieces[i]);
        }
        lemma_split_join(before, sep);
        let text = join(before, seq![sep]) + seq![sep];
        assert(text.drop_last() =~= join(before, seq![sep]));
        assert(split(text, sep) == before.push(Seq::empty()));
        lemma_split_tail(text, last, sep);
        assert(before.push(Seq::empty()).drop_last() =~= before);
        assert(Seq::<char>::empty() + last =~= last);
        assert(before.push(last) =~= pieces);
    }
}

/// Text without the separator goes to the last piece.
pub proof fn lemma_split_tail(s: Seq<char>, tail: Seq<char>, sep: char)
    requires
        !tail.contains(sep),
    ensures
        split(s + tail, sep) == split(s, sep).drop_last().push(split(s, sep).last() + tail),
    decreases tail.len(),
{
    lemma_split_nonempty(s, sep);
    let pieces = split(s, sep);
    if tail.len() == 0 {
        assert(s + tail =~= s);
        assert(pieces.last() + tail =~= pieces.last());
        assert(pieces.drop_last().push(pieces.last()) =~= pieces);
    } else {
        let shorter = tail.drop_last();
        assert(!shorter.contains(sep)) by {
            if shorter.contains(sep) {
                let i = shorter.index_of(sep);
                assert(tail[i] == sep);
            }
        }
        assert(tail.last() != sep) by {
            if tail.last() == sep {
                assert(tail[tail.len() - 1] == sep);
            }
        }
        lemma_split_tail(s, shorter, sep);
        assert((s + tail).drop_last() =~= s + shorter);
        assert((s + tail).last() == tail.last());
        let before = split(s + shorter, sep);
        assert(before.drop_last() =~= pieces.drop_last());
        assert((pieces.last() + shorter).push(tail.last()) =~= pieces.last() + tail);
    }
}

/// Splits `s` at every occurrence of `sep`.
pub fn split_text(s: &str, sep: char) -> (pieces: Vec<String>)
    ensures
        views(pieces@) == split(s@, sep),
        pieces@.len() > 0,
{
    let v = to_chars(s);
    let mut pieces: Vec<String> = Vec::new();
    let mut current = String::new();
    let mut i: usize = 0;
    assert(v@.take(0) =~= Seq::<char>::empty());
    assert(views(pieces@).push(current@) =~= split(v@.take(0), sep));
    while i < v.len()
        invariant
            i <= v@.len(),
            v@ == s@,
            views(pieces@).push(current@) == split(v@.take(i as int), sep),
        decreases v@.len() - i,
    {
        let c = v[i];
        proof {
            assert(v@.take(i + 1).drop_last() =~= v@.take(i as int));
            assert(views(pieces@).push(current@).drop_last() =~= views(pieces@));
        }
        if c == sep {
            proof {
                lemma_views_push(pieces@, current);
            }
            pieces.push(current);
            current = String::new();
        } else {
            current.push(c);
        }
        i = i + 1;
    }
    proof {
        assert(v@.take(i as int) =~= v@);
        lemma_views_push(pieces@, current);
    }
    pieces.push(current);
    pieces
}

/// Joins `pieces` with `sep` between them.
pub fn join_text(pieces: &Vec<String>, sep: &str) -> (s: String)
    ensures
        s@ == join(views(pieces@), sep@),
{
    let mut s = String::new();
    let mut i: usize = 0;
    let ghost all = views(pieces@);
    while i < pieces.len()
        invariant
            i <= pieces@.len(),
            all == views(pieces@),
            s@ == join(all.take(i as int), sep@),
        decreases pieces@.len() - i,
    {
        proof {
            assert(all.take(i + 1).drop_last() =~= all.take(i as int));
            assert(all.take(i + 1).last() == pieces@[i as int]@);
        }
        if i > 0 {
            s.append(sep);
        }
        s.append(pieces[i].as_str());
        i = i + 1;
        assert(s@ =~= join(all.take(i as int), sep@));
    }
    assert(all.take(i as int) =~= all);
    s
}

// ---------------------------------------------------------------------------------------------
// Trimming
// ---------------------------------------------------------------------------------------------

/// The characters with the Unicode property `White_Space`.
pub open spec fn white(c: char) -> bool {
    let n = c as u32;
    ||| 0x09 <= n <= 0x0d
    ||| n == 0x20
    ||| n == 0x85
    ||| n == 0xa0
    ||| n == 0x1680
    ||| 0x2000 <= n <= 0x200a
    ||| n == 0x2028
    ||| n == 0x2029
    ||| n == 0x202f
    ||| n == 0x205f
    ||| n == 0x3000
}

fn is_white(c: char) -> (r: bool)
    ensures
        r == white(c),
{
    let n: u32 = c as u32;
    (0x09 <= n && n <= 0x0d) || n == 0x20 || n == 0x85 || n == 0xa0 || n == 0x1680 || (0x2000 <= n
        && n <= 0x200a) || n == 0x2028 || n == 0x2029 || n == 0x202f || n == 0x205f || n == 0x3000
}

/// `s` without the white space at its beginning.
pub open spec fn trim_start(s: Seq<char>) -> Seq<char>
    decreases s.len(),
{
    if s.len() > 0 && white(s[0]) {
        trim_start(s.drop_first())
    } else {
        s
    }
}

/// `s` without the white space at its end.
pub open spec fn trim_end(s: Seq<char>) -> Seq<char>
    decreases s.len(),
{
    if s.len() > 0 && white(s.last()) {
        trim_end(s.drop_last())
    } else {
        s
    }
}

/// `s` without the white space at either end.
pub open spec fn trim(s: Seq<char>) -> Seq<char> {
    trim_end(trim_start(s))
}

/// Trimming a decimal numeral that ends in a line feed gives the numeral.
pub proof fn lemma_trim_numeral_line(n: nat)
    ensures
        trim(numeral(n, 10).push('\n')) == numeral(n, 10),
{
    let text = numeral(n, 10);
    lemma_numeral_digits(n);
    let line = text.push('\n');
    assert(line[0] == text[0]);
    assert(trim_start(line) == line);
    assert(line.drop_last() =~= text);
    reveal_with_fuel(trim_end, 2);
    assert(text.last() == text[text.len() - 1]);
}

/// Removes the white space at either end.
pub fn trim_text(s: &str) -> (r: String)
    ensures
        r@ == trim(s@),
{
    let v = to_chars(s);
    let mut from: usize = 0;
    assert(v@.subrange(0, v@.len() as int) =~= v@);
    while from < v.len() && is_white(v[from])
        invariant
            from <= v@.len(),
            trim_start(v@) == trim_start(v@.subrange(from as int, v@.len() as int)),
        decreases v@.len() - from,
    {
        assert(v@.subrange(from as int, v@.len() as int).drop_first() =~= v@.subrange(
            from + 1,
            v@.len() as int,
        ));
        from = from + 1;
    }
    let ghost begun = v@.subrange(from as int, v@.len() as int);
    assert(trim_start(v@) == begun);
    let mut to: usize = v.len();
    while to > from && is_white(v[to - 1])
        invariant
            from <= to <= v@.len(),
            trim_end(begun) == trim_end(v@.subrange(from as int, to as int)),
        decreases to,
    {
        assert(v@.subrange(from as int, to as int).drop_last() =~= v@.subrange(
            from as int,
            to - 1,
        ));
        to = to - 1;
    }
    from_chars(&v, from, to)
}

/// `s` without the characters `c` at its beginning.
pub open spec fn strip_leading(s: Seq<char>, c: char) -> Seq<char>
    decreases s.len(),
{
    if s.len() > 0 && s[0] == c {
        strip_leading(s.drop_first(), c)
    } else {
        s
    }
}

/// `s` without the characters `c` at its end.
pub open spec fn strip_trailing(s: Seq<char>, c: char) -> Seq<char>
    decreases s.len(),
{
    if s.len() > 0 && s.last() == c {
        strip_trailing(s.drop_last(), c)
    } else {
        s
    }
}

/// Removes every `c` at the beginning of `s`.
pub fn strip_leading_char(s: &str, c: char) -> (r: String)
    ensures
        r@ == strip_leading(s@, c),
{
    let v = to_chars(s);
    let mut from: usize = 0;
    assert(v@.subrange(0, v@.len() as int) =~= v@);
    while from < v.len() && v[from] == c
        invariant
            from <= v@.len(),
            strip_leading(v@, c) == strip_leading(v@.subrange(from as int, v@.len() as int), c),
        decreases v@.len() - from,
    {
        assert(v@.subrange(from as int, v@.len() as int).drop_first() =~= v@.subrange(
            from + 1,
            v@.len() as int,
        ));
        from = from + 1;
    }
    from_chars(&v, from, v.len())
}

/// Removes every `c` at the end of `s`.
pub fn strip_trailing_char(s: &str, c: char) -> (r: String)
    ensures
        r@ == strip_trailing(s@, c),
{
    let v = to_chars(s);
    let mut to: usize = v.len();
    assert(v@.subrange(0, v@.len() as int) =~= v@);
    while to > 0 && v[to - 1] == c
        invariant
            to <= v@.len(),
            strip_trailing(v@, c) == strip_trailing(v@.subrange(0, to as int), c),
        decreases to,
    {
        assert(v@.subrange(0, to as int).drop_last() =~= v@.subrange(0, to - 1));
        to = to - 1;
    }
    from_chars(&v, 0, to)
}

/// Different numbers have different numerals.
pub proof fn lemma_numeral_injective(a: nat, b: nat, base: nat)
    requires
        2 <= base <= 16,
        numeral(a, base) == numeral(b, base),
    ensures
        a == b,
    decreases a,
{
    let x = numeral(a, base);
    let y = numeral(b, base);
    lemma_numeral_nonempty(a, base);
    lemma_numeral_nonempty(b, base);
    if a < base && b < base {
        assert(x[0] == digit(a) && y[0] == digit(b));
    } else if a < base {
        lemma_numeral_nonempty(b / base, base);
        assert(y.len() > 1);
    } else if b < base {
        lemma_numeral_nonempty(a / base, base);
        assert(x.len() > 1);
    } else {
        vstd::arithmetic::div_mod::lemma_div_decreases(a as int, base as int);
        assert(x.drop_last() =~= numeral(a / base, base));
        assert(y.drop_last() =~= numeral(b / base, base));
        lemma_numeral_injective(a / base, b / base, base);
        assert(x.last() == digit(a % base) && y.last() == digit(b % base));
        vstd::arithmetic::div_mod::lemma_mod_bound(a as int, base as int);
        vstd::arithmetic::div_mod::lemma_mod_bound(b as int, base as int);
        assert(a % base == b % base);
        vstd::arithmetic::div_mod::lemma_fundamental_div_mod(a as int, base as int);
        vstd::arithmetic::div_mod::lemma_fundamental_div_mod(b as int, base as int);
    }
}

proof fn lemma_numeral_nonempty(n: nat, base: nat)
    requires
        2 <= base,
    ensures
        numeral(n, base).len() > 0,
{
}

/// A text that was split can be put together again.
pub proof fn lemma_join_split(s: Seq<char>, sep: char)
    ensures
        join(split(s, sep), seq![sep]) == s,
    decreases s.len(),
{
    lemma_split_nonempty(s, sep);
    if s.len() == 0 {
        assert(join(split(s, sep), seq![sep]) =~= s);
    } else {
        let t = s.drop_last();
        let before = split(t, sep);
        lemma_split_nonempty(t, sep);
        lemma_join_split(t, sep);
        assert(t.push(s.last()) =~= s);
        if s.last() == sep {
            assert(split(s, sep).drop_last() =~= before);
            assert(join(split(s, sep), seq![sep]) =~= t + seq![sep]);
        } else {
            let all = split(s, sep);
            assert(all.drop_last() =~= before.drop_last());
            if before.len() == 1 {
                assert(join(all, seq![sep]) =~= before[0].push(s.last()));
            } else {
                assert(join(all, seq![sep]) =~= (join(before.drop_last(), seq![sep]) + seq![sep]
                    + before.last()).push(s.last()));
            }
        }
    }
}

/// One text begins with another exactly where the one is the other and something more.
pub proof fn lemma_begins_with(s: Seq<char>, prefix: Seq<char>, rest: Seq<char>)
    ensures
        begins_with(prefix + rest, prefix),
        begins_with(s, prefix) ==> s == prefix + s.skip(prefix.len() as int),
{
    assert((prefix + rest).take(prefix.len() as int) =~= prefix);
    if begins_with(s, prefix) {
        assert(s =~= prefix + s.skip(prefix.len() as int));
    }
}

/// Trimming takes away white space at the ends and nothing else: what is left begins and ends with
/// other characters, and stands in the text between white space.
pub proof fn lemma_trimmed(s: Seq<char>) -> (from: int)
    ensures
        0 <= from <= from + trim(s).len() <= s.len(),
        trim(s) == s.subrange(from, from + trim(s).len() as int),
        forall|i: int| 0 <= i < from ==> white(#[trigger] s[i]),
        forall|i: int| from + trim(s).len() <= i < s.len() ==> white(#[trigger] s[i]),
        trim(s).len() > 0 ==> !white(trim(s)[0]) && !white(trim(s).last()),
{
    let a = trim_start(s);
    let k = lemma_trim_start(s);
    lemma_trim_end(a);
    let t = trim_end(a);
    assert(trim(s) == t);
    assert(t =~= s.subrange(k, k + t.len()));
    assert forall|i: int| k + t.len() <= i < s.len() implies white(#[trigger] s[i]) by {
        assert(a[i - k] == s[i]);
    }
    if t.len() > 0 {
        assert(t[0] == a[0]);
    }
    k
}

proof fn lemma_trim_start(s: Seq<char>) -> (from: int)
    ensures
        0 <= from <= s.len(),
        trim_start(s) == s.skip(from),
        forall|i: int| 0 <= i < from ==> white(#[trigger] s[i]),
        trim_start(s).len() > 0 ==> !white(trim_start(s)[0]),
    decreases s.len(),
{
    if s.len() > 0 && white(s[0]) {
        let rest = s.drop_first();
        let k = lemma_trim_start(rest);
        assert(s.skip(k + 1) =~= rest.skip(k));
        assert forall|i: int| 0 <= i < k + 1 implies white(#[trigger] s[i]) by {
            if i > 0 {
                assert(rest[i - 1] == s[i]);
            }
        }
        k + 1
    } else {
        assert(s.skip(0) =~= s);
        0
    }
}

proof fn lemma_trim_end(s: Seq<char>)
    ensures
        trim_end(s).len() <= s.len(),
        trim_end(s) == s.take(trim_end(s).len() as int),
        forall|i: int| trim_end(s).len() <= i < s.len() ==> white(#[trigger] s[i]),
        trim_end(s).len() > 0 ==> !white(trim_end(s).last()),
    decreases s.len(),
{
    if s.len() > 0 && white(s.last()) {
        let rest = s.drop_last();
        lemma_trim_end(rest);
        assert(s.take(trim_end(rest).len() as int) =~= rest.take(trim_end(rest).len() as int));
        assert forall|i: int| trim_end(s).len() <= i < s.len() implies white(#[trigger] s[i]) by {
            if i < s.len() - 1 {
                assert(rest[i] == s[i]);
            }
        }
    } else {
        assert(s.take(s.len() as int) =~= s);
    }
}

/// Stripping takes away the character at the beginning, as often as it stands there, and nothing
/// else.
pub proof fn lemma_stripped_leading(s: Seq<char>, c: char)
    ensures
        strip_leading(s, c).len() <= s.len(),
        strip_leading(s, c) == s.skip(s.len() - strip_leading(s, c).len()),
        forall|i: int| 0 <= i < s.len() - strip_leading(s, c).len() ==> #[trigger] s[i] == c,
        strip_leading(s, c).len() > 0 ==> strip_leading(s, c)[0] != c,
    decreases s.len(),
{
    if s.len() > 0 && s[0] == c {
        let rest = s.drop_first();
        lemma_stripped_leading(rest, c);
        assert(s.skip(s.len() - strip_leading(rest, c).len()) =~= rest.skip(
            rest.len() - strip_leading(rest, c).len(),
        ));
        assert forall|i: int| 0 <= i < s.len() - strip_leading(s, c).len() implies #[trigger] s[i]
            == c by {
            if i > 0 {
                assert(rest[i - 1] == s[i]);
            }
        }
    } else {
        assert(s.skip(0) =~= s);
    }
}

/// Stripping takes away the character at the end, as often as it stands there, and nothing else.
pub proof fn lemma_stripped_trailing(s: Seq<char>, c: char)
    ensures
        strip_trailing(s, c).len() <= s.len(),
        strip_trailing(s, c) == s.take(strip_trailing(s, c).len() as int),
        forall|i: int| strip_trailing(s, c).len() <= i < s.len() ==> #[trigger] s[i] == c,
        strip_trailing(s, c).len() > 0 ==> strip_trailing(s, c).last() != c,
    decreases s.len(),
{
    if s.len() > 0 && s.last() == c {
        let rest = s.drop_last();
        lemma_stripped_trailing(rest, c);
        assert(s.take(strip_trailing(rest, c).len() as int) =~= rest.take(
            strip_trailing(rest, c).len() as int,
        ));
        assert forall|i: int| strip_trailing(s, c).len() <= i < s.len() implies #[trigger] s[i]
            == c by {
            if i < s.len() - 1 {
                assert(rest[i] == s[i]);
            }
        }
    } else {
        assert(s.take(s.len() as int) =~= s);
    }
}

/// No printable character of ASCII but the blank is white space; the blank, the tab and the ends of
/// lines are.
pub proof fn lemma_white_space(c: char)
    ensures
        0x21 <= c as u32 <= 0x7e ==> !white(c),
        c == ' ' || c == '\t' || c == '\n' || c == '\r' ==> white(c),
        white(c) ==> c as u32 <= 0x3000,
{
}

/// A text is a numeral exactly where it holds nothing but decimal digits, and one more digit makes it
/// ten times as much and the digit more.
pub proof fn lemma_decimal_digits(s: Seq<char>, d: char)
    ensures
        decimal_value(s) is Some <==> (forall|i: int|
            0 <= i < s.len() ==> '0' <= #[trigger] s[i] <= '9'),
        decimal_value(s) is Some && '0' <= d <= '9' ==> decimal_value(s.push(d)) == Some(
            (decimal_value(s)->0 * 10 + (d as nat - '0' as nat)) as nat,
        ),
    decreases s.len(),
{
    assert(s.push(d).drop_last() =~= s);
    if s.len() > 0 {
        let rest = s.drop_last();
        lemma_decimal_digits(rest, d);
        assert(s.last() == s[s.len() - 1]);
        assert(forall|i: int| 0 <= i < rest.len() ==> #[trigger] rest[i] == s[i]);
        if forall|i: int| 0 <= i < s.len() ==> '0' <= #[trigger] s[i] <= '9' {
            assert forall|i: int| 0 <= i < rest.len() implies '0' <= #[trigger] rest[i] <= '9' by {
                assert(rest[i] == s[i]);
            }
        }
        if decimal_value(s) is Some {
            assert forall|i: int| 0 <= i < s.len() implies '0' <= #[trigger] s[i] <= '9' by {
                if i < rest.len() {
                    assert(rest[i] == s[i]);
                }
            }
        }
    }
}

/// A text is read as a number exactly where it is a numeral, after a plus sign or not, whose value
/// fits.
pub proof fn lemma_usize_readings(digits: Seq<char>)
    requires
        digits.len() > 0,
        digits[0] != '+',
    ensures
        usize_value(digits) == usize_value(seq!['+'] + digits),
        decimal_value(digits) is Some && decimal_value(digits)->0 <= usize::MAX ==> usize_value(
            digits,
        ) is Some && usize_value(digits)->0 == decimal_value(digits)->0,
        decimal_value(digits) is None || decimal_value(digits)->0 > usize::MAX ==> usize_value(
            digits,
        ) is None,
{
    assert((seq!['+'] + digits).drop_first() =~= digits);
}

/// The views of a sequence are those of its items, one by one.
pub proof fn lemma_views_items<T: View>(items: Seq<T>, i: int)
    requires
        0 <= i < items.len(),
    ensures
        views(items).len() == items.len(),
        views(items)[i] == items[i]@,
        opt_view(Some(items[i])) == Some(items[i]@),
        opt_view(None::<T>) is None,
{
}

/// A padded numeral is as long as it has to be, and no longer than it needs to be.
pub proof fn lemma_padded_width(n: nat, width: nat)
    ensures
        padded(n, width).len() == if numeral(n, 10).len() < width {
            width
        } else {
            numeral(n, 10).len()
        },
        padded(n, width).skip(padded(n, width).len() - numeral(n, 10).len()) == numeral(n, 10),
        forall|i: int|
            0 <= i < padded(n, width).len() - numeral(n, 10).len() ==> #[trigger] padded(
                n,
                width,
            )[i] == '0',
{
    assert(padded(n, width).skip(padded(n, width).len() - numeral(n, 10).len()) =~= numeral(n, 10));
}

/// Why a text is not read as a number: there is none, or it is a numeral that is too large, or it
/// begins with something that is no digit.
pub proof fn lemma_unreadable(s: Seq<char>)
    ensures
        usize_value(s) is Some ==> usize_reading(s) == Ok::<usize, NumeralError>(usize_value(s)->0),
        usize_value(s) is None ==> usize_reading(s) is Err,
        s.len() == 0 ==> usize_reading(s) == Err::<usize, NumeralError>(NumeralError::Empty),
        s.len() > 0 && s[0] != '+' && decimal_value(s) is Some && decimal_value(s)->0 > usize::MAX
            ==> usize_reading(s) == Err::<usize, NumeralError>(NumeralError::TooLarge),
        s.len() > 0 && s[0] != '+' && !('0' <= s[0] <= '9') ==> usize_reading(s) == Err::<
            usize,
            NumeralError,
        >(NumeralError::InvalidDigit),
{
    if s.len() > 0 && s[0] != '+' {
        if decimal_value(s) is Some && decimal_value(s)->0 > usize::MAX {
            assert(s.take(s.len() as int) =~= s);
            assert(grows_too_large(unsigned(s)));
        }
        if !('0' <= s[0] <= '9') {
            lemma_decimal_digits(s, '0');
            assert(s.take(0) =~= Seq::<char>::empty());
            lemma_stays_small(s, 0);
        }
    }
}

/// The digits are those from zero to nine, and then the first letters.
pub proof fn lemma_digits(d: nat)
    requires
        d < 16,
    ensures
        d < 10 ==> digit(d) as nat == 0x30 + d,
        d >= 10 ==> digit(d) as nat == 0x61 + d - 10,
{
}

/// A digit behind a numeral makes the number as many times as large as the base says, and the digit
/// more. No numeral but that of zero begins with a zero.
pub proof fn lemma_numeral_one_more(n: nat, d: nat, base: nat)
    requires
        2 <= base <= 16,
        d < base,
    ensures
        numeral(d, base) == seq![digit(d)],
        n > 0 ==> numeral(n * base + d, base) == numeral(n, base).push(digit(d)),
        n > 0 ==> numeral(n, base).len() > 0 && numeral(n, base)[0] != '0',
        decimal_value(Seq::empty()) == Some(0nat),
{
    if n > 0 {
        let m = n * base + d;
        assert(m >= base) by (nonlinear_arith)
            requires
                m == n * base + d,
                n > 0,
        ;
        vstd::arithmetic::div_mod::lemma_fundamental_div_mod_converse(
            m as int,
            base as int,
            n as int,
            d as int,
        );
        lemma_numeral_begins(n, base);
    }
}

proof fn lemma_numeral_begins(n: nat, base: nat)
    requires
        2 <= base <= 16,
        n > 0,
    ensures
        numeral(n, base).len() > 0,
        numeral(n, base)[0] != '0',
    decreases n,
{
    if n >= base {
        vstd::arithmetic::div_mod::lemma_div_decreases(n as int, base as int);
        vstd::arithmetic::div_mod::lemma_div_non_zero(n as int, base as int);
        lemma_numeral_begins(n / base, base);
        assert(numeral(n, base)[0] == numeral(n / base, base)[0]);
    }
}

} // verus!
