//! The configuration of a run, as the program's arguments give it.
//!
//! An argument of the form `<W>x<H>` sets the size of the board, if the
//! size is one that the twelve pieces can fill; the argument `--debug`
//! asks for the catalog to be shown. Anything else is passed over.

use vstd::prelude::*;

verus! {

/// What a run needs to know.
#[derive(Clone, Copy, Debug, PartialEq, Eq, Structural)]
pub struct Config {
    pub width: i32,
    pub height: i32,
    pub debug: bool,
}

/// The width used where no argument gives an accepted size.
pub const DEFAULT_WIDTH: i32 = 6;

/// The height used where no argument gives an accepted size.
pub const DEFAULT_HEIGHT: i32 = 10;

/// White space: the characters that are cut from both ends of a number.
pub open spec fn is_space(c: char) -> bool {
    let u = c as u32;
    (0x09 <= u <= 0x0d) || u == 0x20 || u == 0x85 || u == 0xa0 || u == 0x1680 || (0x2000 <= u
        <= 0x200a) || u == 0x2028 || u == 0x2029 || u == 0x202f || u == 0x205f || u == 0x3000
}

/// The text without the white space at its start.
pub open spec fn trim_start(s: Seq<char>) -> Seq<char>
    decreases s.len(),
{
    if s.len() > 0 && is_space(s[0]) {
        trim_start(s.skip(1))
    } else {
        s
    }
}

/// The text without the white space at its end.
pub open spec fn trim_end(s: Seq<char>) -> Seq<char>
    decreases s.len(),
{
    if s.len() > 0 && is_space(s.last()) {
        trim_end(s.drop_last())
    } else {
        s
    }
}

/// The text without the white space at both ends.
pub open spec fn trimmed(s: Seq<char>) -> Seq<char> {
    trim_end(trim_start(s))
}

/// A decimal digit.
pub open spec fn is_digit(c: char) -> bool {
    '0' <= c <= '9'
}

/// Every character is a decimal digit.
pub open spec fn all_digits(s: Seq<char>) -> bool {
    forall|i: int| 0 <= i < s.len() ==> is_digit(#[trigger] s[i])
}

/// The value of a decimal digit.
pub open spec fn digit_value(c: char) -> nat {
    if is_digit(c) {
        (c as u32 - 48) as nat
    } else {
        0
    }
}

/// The number that a sequence of decimal digits writes.
pub open spec fn digits_value(s: Seq<char>) -> nat
    decreases s.len(),
{
    if s.len() == 0 {
        0
    } else {
        digits_value(s.drop_last()) * 10 + digit_value(s.last())
    }
}

/// The 32-bit integer that the text writes: an optional sign and at
/// least one decimal digit, with a value in range; otherwise none.
pub open spec fn number(s: Seq<char>) -> Option<int> {
    let signed = s.len() > 0 && (s[0] == '+' || s[0] == '-');
    let body = if signed { s.skip(1) } else { s };
    let value = if s.len() > 0 && s[0] == '-' {
        -(digits_value(body) as int)
    } else {
        digits_value(body) as int
    };
    if body.len() > 0 && all_digits(body) && i32::MIN <= value <= i32::MAX {
        Some(value)
    } else {
        None
    }
}

/// The board of `w` by `h` cells is one that the pieces can fill, with
/// the centre block where the area is 64.
pub open spec fn accepted(w: int, h: int) -> bool {
    w >= 3 && h >= 3 && (w * h == 60 || w * h == 64)
}

/// The size that an argument names, if it is accepted: the argument has
/// exactly one `x`, with a number on each side of it.
pub open spec fn size_of(arg: Seq<char>) -> Option<(int, int)> {
    if exists|i: int| splits_at(arg, i) {
        let i = choose|i: int| splits_at(arg, i);
        let w = number(trimmed(arg.take(i)));
        let h = number(trimmed(arg.skip(i + 1)));
        if w is Some && h is Some && accepted(w->0, h->0) {
            Some((w->0, h->0))
        } else {
            None
        }
    } else {
        None
    }
}

/// The only `x` of the argument is at position `i`.
pub open spec fn splits_at(arg: Seq<char>, i: int) -> bool {
    &&& 0 <= i < arg.len()
    &&& forall|j: int| 0 <= j < arg.len() ==> (#[trigger] arg[j] == 'x' <==> j == i)
}

/// The size that a list of arguments sets: that of the last argument
/// that names an accepted size, or the default.
pub open spec fn chosen_size(args: Seq<Seq<char>>) -> (int, int)
    decreases args.len(),
{
    if args.len() == 0 {
        (DEFAULT_WIDTH as int, DEFAULT_HEIGHT as int)
    } else {
        match size_of(args.last()) {
            Some(size) => size,
            None => chosen_size(args.drop_last()),
        }
    }
}

/// The texts of a list of strings.
pub open spec fn texts(list: Seq<String>) -> Seq<Seq<char>> {
    Seq::new(list.len(), |i: int| list[i]@)
}

/// One of the arguments is `--debug`.
pub open spec fn wants_debug(args: Seq<Seq<char>>) -> bool {
    args.contains("--debug"@)
}

/// The characters of a text.
pub fn chars_of(s: &str) -> (v: Vec<char>)
    ensures
        v@ == s@,
{
    let n = s.unicode_len();
    let mut v: Vec<char> = Vec::new();
    let mut i: usize = 0;
    while i < n
        invariant
            n == s@.len(),
            i <= n,
            v@ == s@.take(i as int),
        decreases n - i,
    {
        v.push(s.get_char(i));
        assert(v@ =~= s@.take(i + 1));
        i += 1;
    }
    assert(s@.take(n as int) =~= s@);
    v
}

/// Whether two texts are equal.
pub fn same_text(a: &str, b: &str) -> (r: bool)
    ensures
        r == (a@ == b@),
{
    let s = chars_of(a);
    let t = chars_of(b);
    if s.len() != t.len() {
        return false;
    }
    let n = s.len();
    let mut i: usize = 0;
    while i < n
        invariant
            n == s@.len(),
            n == t@.len(),
            s@ == a@,
            t@ == b@,
            i <= n,
            forall|j: int| 0 <= j < i ==> s@[j] == t@[j],
        decreases n - i,
    {
        if s[i] != t[i] {
            assert(s@[i as int] != t@[i as int]);
            return false;
        }
        i += 1;
    }
    assert(s@ =~= t@);
    true
}

/// Decides `is_space`.
pub fn is_space_char(c: char) -> (r: bool)
    ensures
        r == is_space(c),
{
    let u = c as u32;
    (0x09 <= u && u <= 0x0d) || u == 0x20 || u == 0x85 || u == 0xa0 || u == 0x1680 || (0x2000 <= u
        && u <= 0x200a) || u == 0x2028 || u == 0x2029 || u == 0x202f || u == 0x205f || u == 0x3000
}

/// The part of the text from `from` up to `to`, without the white space
/// at its ends.
pub fn trim(s: &Vec<char>, from: usize, to: usize) -> (v: Vec<char>)
    requires
        from <= to <= s@.len(),
    ensures
        v@ == trimmed(s@.subrange(from as int, to as int)),
{
    let ghost part = s@.subrange(from as int, to as int);
    let mut lo = from;
    assert(s@.subrange(lo as int, to as int) =~= part);
    while lo < to && is_space_char(s[lo])
        invariant
            from <= lo <= to <= s@.len(),
            trim_start(part) == trim_start(s@.subrange(lo as int, to as int)),
        decreases to - lo,
    {
        assert(s@.subrange(lo as int, to as int).skip(1) =~= s@.subrange(lo + 1, to as int));
        lo += 1;
    }
    assert(trim_start(part) == s@.subrange(lo as int, to as int));
    let mut hi = to;
    while lo < hi && is_space_char(s[hi - 1])
        invariant
            lo <= hi <= to <= s@.len(),
            trimmed(part) == trim_end(s@.subrange(lo as int, hi as int)),
        decreases hi - lo,
    {
        assert(s@.subrange(lo as int, hi as int).drop_last() =~= s@.subrange(lo as int, hi - 1));
        hi -= 1;
    }
    assert(trimmed(part) == s@.subrange(lo as int, hi as int));
    let mut v: Vec<char> = Vec::new();
    let mut i = lo;
    while i < hi
        invariant
            lo <= i <= hi <= s@.len(),
            v@ == s@.subrange(lo as int, i as int),
        decreases hi - i,
    {
        v.push(s[i]);
        assert(v@ =~= s@.subrange(lo as int, i + 1));
        i += 1;
    }
    v
}

/// A longer sequence of digits writes a number that is no smaller.
pub proof fn lemma_digits_grow(s: Seq<char>, k: int)
    requires
        0 <= k <= s.len(),
    ensures
        digits_value(s.take(k)) <= digits_value(s),
    decreases s.len() - k,
{
    if k < s.len() {
        lemma_digits_grow(s, k + 1);
        let longer = s.take(k + 1);
        assert(longer.drop_last() =~= s.take(k));
        assert(digits_value(longer) == digits_value(s.take(k)) * 10 + digit_value(longer.last()));
    } else {
        assert(s.take(k) =~= s);
    }
}

/// The 32-bit integer that the text writes, if it writes one.
pub fn parse_number(s: &Vec<char>) -> (r: Option<i32>)
    ensures
        match r {
            Some(v) => number(s@) == Some(v as int),
            None => number(s@) is None,
        },
{
    let n = s.len();
    if n == 0 {
        return None;
    }
    let minus = s[0] == '-';
    let start: usize = if s[0] == '+' || s[0] == '-' { 1 } else { 0 };
    if start == n {
        return None;
    }
    let ghost body = s@.skip(start as int);
    assert(s@.skip(0) =~= s@);
    let mut value: i64 = 0;
    let mut i = start;
    assert(body.take(0) =~= Seq::<char>::empty());
    while i < n
        invariant
            n == s@.len(),
            n > 0,
            start <= i <= n,
            start == (if s@[0] == '+' || s@[0] == '-' {
                1int
            } else {
                0int
            }),
            s@.skip(0) == s@,
            body == s@.skip(start as int),
            all_digits(body.take(i - start)),
            value == digits_value(body.take(i - start)),
            0 <= value <= 0x8000_0000,
        decreases n - i,
    {
        let c = s[i];
        let ghost k = i - start;
        assert(body[k] == c);
        assert(body.take(k + 1).drop_last() =~= body.take(k));
        if !('0' <= c && c <= '9') {
            assert(!is_digit(body[k]));
            assert(!all_digits(body));
            return None;
        }
        assert(digits_value(body.take(k + 1)) == digits_value(body.take(k)) * 10 + digit_value(c));
        assert forall|m: int| 0 <= m < k + 1 implies is_digit(#[trigger] body.take(k + 1)[m]) by {
            if m < k {
                assert(body.take(k)[m] == body.take(k + 1)[m]);
            }
        }
        let d = (c as u32 - 48) as i64;
        value = value * 10 + d;
        if value > 0x8000_0000 {
            proof {
                lemma_digits_grow(body, k + 1);
            }
            return None;
        }
        i += 1;
    }
    assert(body.take(n - start) =~= body);
    if minus {
        Some((-value) as i32)
    } else if value > 0x7fff_ffff {
        None
    } else {
        Some(value as i32)
    }
}

/// The size that an argument names, if it is accepted.
pub fn parse_size(arg: &str) -> (r: Option<(i32, i32)>)
    ensures
        match r {
            Some((w, h)) => size_of(arg@) == Some((w as int, h as int)),
            None => size_of(arg@) is None,
        },
{
    let s = chars_of(arg);
    let n = s.len();
    let mut at: usize = 0;
    while at < n && s[at] != 'x'
        invariant
            n == s@.len(),
            at <= n,
            forall|j: int| 0 <= j < at ==> s@[j] != 'x',
        decreases n - at,
    {
        at += 1;
    }
    if at == n {
        assert forall|i: int| !splits_at(s@, i) by {
            if splits_at(s@, i) {
                assert(s@[i] == 'x');
            }
        }
        return None;
    }
    let mut j = at + 1;
    while j < n && s[j] != 'x'
        invariant
            n == s@.len(),
            at < j <= n,
            forall|k: int| at < k < j ==> s@[k] != 'x',
        decreases n - j,
    {
        j += 1;
    }
    if j < n {
        assert forall|i: int| !splits_at(s@, i) by {
            if splits_at(s@, i) {
                assert(s@[at as int] == 'x' <==> at == i);
                assert(s@[j as int] == 'x' <==> j == i);
            }
        }
        return None;
    }
    assert(splits_at(s@, at as int));
    assert forall|i: int| splits_at(s@, i) implies i == at by {
        assert(s@[at as int] == 'x' <==> at == i);
    }
    assert(s@.take(at as int) =~= s@.subrange(0, at as int));
    assert(s@.skip(at + 1) =~= s@.subrange(at + 1, n as int));
    let left = trim(&s, 0, at);
    let right = trim(&s, at + 1, n);
    match (parse_number(&left), parse_number(&right)) {
        (Some(w), Some(h)) => {
            assert(-0x8000_0000 * 0x8000_0000 <= w * h <= 0x8000_0000 * 0x8000_0000)
                by (nonlinear_arith)
                requires
                    -0x8000_0000 <= w <= 0x8000_0000,
                    -0x8000_0000 <= h <= 0x8000_0000,
            ;
            let area = (w as i64) * (h as i64);
            if w >= 3 && h >= 3 && (area == 60 || area == 64) {
                Some((w, h))
            } else {
                None
            }
        },
        _ => None,
    }
}

impl Config {
    /// The configuration that a list of arguments gives: the size of the
    /// last argument that names an accepted one, or six by ten; and
    /// whether one of the arguments is `--debug`.
    pub fn from_args(args: &Vec<String>) -> (c: Config)
        ensures
            (c.width as int, c.height as int) == chosen_size(texts(args@)),
            c.debug == wants_debug(texts(args@)),
            accepted(c.width as int, c.height as int),
    {
        let mut c = Config { width: DEFAULT_WIDTH, height: DEFAULT_HEIGHT, debug: false };
        let ghost all = texts(args@);
        let n = args.len();
        let mut i: usize = 0;
        assert(all.take(0) =~= Seq::<Seq<char>>::empty());
        while i < n
            invariant
                n == args@.len(),
                all == texts(args@),
                i <= n,
                (c.width as int, c.height as int) == chosen_size(all.take(i as int)),
                c.debug == all.take(i as int).contains("--debug"@),
                accepted(c.width as int, c.height as int),
            decreases n - i,
        {
            let arg = args[i].as_str();
            let ghost before = all.take(i as int);
            let ghost now = all.take(i + 1);
            assert(now.drop_last() =~= before);
            assert(now.last() == arg@);
            if same_text(arg, "--debug") {
                c.debug = true;
            }
            proof {
                if before.contains("--debug"@) {
                    let k = choose|k: int| 0 <= k < before.len() && before[k] == "--debug"@;
                    assert(now[k] == "--debug"@);
                }
                if arg@ == "--debug"@ {
                    assert(now[i as int] == "--debug"@);
                }
                if now.contains("--debug"@) {
                    let k = choose|k: int| 0 <= k < now.len() && now[k] == "--debug"@;
                    if k < i {
                        assert(before[k] == "--debug"@);
                    }
                }
            }
            match parse_size(arg) {
                Some((w, h)) => {
                    c.width = w;
                    c.height = h;
                },
                None => {},
            }
            i += 1;
        }
        assert(all.take(n as int) =~= all);
        c
    }
}

} // verus!
