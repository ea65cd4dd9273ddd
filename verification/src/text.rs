//! Character-sequence utilities shared by the object codecs: finding a
//! separator character, splitting a text into lines, joining lines back,
//! prefix tests, and decimal formatting/parsing.

use vstd::prelude::*;

verus! {

// ---------------------------------------------------------------------------
// Finding a character
// ---------------------------------------------------------------------------

/// Index of the first occurrence of `c` in `s` at or after position `i`.
pub open spec fn find_char_from(s: Seq<char>, i: int, c: char) -> Option<int>
    decreases s.len() - i,
{
    if i < 0 || i >= s.len() {
        None
    } else if s[i] == c {
        Some(i)
    } else {
        find_char_from(s, i + 1, c)
    }
}

/// Index of the first occurrence of `c` in `s`.
pub open spec fn find_char(s: Seq<char>, c: char) -> Option<int> {
    find_char_from(s, 0, c)
}

pub proof fn lemma_find_char_from_spec(s: Seq<char>, i: int, c: char)
    requires
        0 <= i <= s.len(),
    ensures
        match find_char_from(s, i, c) {
            Some(j) => i <= j < s.len() && s[j] == c && (forall|k: int| i <= k < j ==> s[k] != c),
            None => forall|k: int| i <= k < s.len() ==> s[k] != c,
        },
    decreases s.len() - i,
{
    if i < s.len() && s[i] != c {
        lemma_find_char_from_spec(s, i + 1, c);
    }
}

/// Scanning past a region without `c` does not change the result.
pub proof fn lemma_find_char_skip(s: Seq<char>, i: int, j: int, c: char)
    requires
        0 <= i <= j <= s.len(),
        forall|k: int| i <= k < j ==> s[k] != c,
    ensures
        find_char_from(s, i, c) == find_char_from(s, j, c),
    decreases j - i,
{
    if i < j {
        lemma_find_char_skip(s, i + 1, j, c);
    }
}

/// Searching `a + b` from a position inside `b` mirrors searching `b`.
pub proof fn lemma_find_char_shift(a: Seq<char>, b: Seq<char>, i: int, c: char)
    requires
        0 <= i <= b.len(),
    ensures
        find_char_from(a + b, a.len() + i, c) == match find_char_from(b, i, c) {
            Some(j) => Some(a.len() + j),
            None => None::<int>,
        },
    decreases b.len() - i,
{
    if i < b.len() {
        assert((a + b)[a.len() + i] == b[i]);
        if b[i] != c {
            lemma_find_char_shift(a, b, i + 1, c);
        }
    }
}

/// If `a` holds no `c`, the first `c` of `a + b` is the first `c` of `b`.
pub proof fn lemma_find_char_concat(a: Seq<char>, b: Seq<char>, c: char)
    requires
        forall|k: int| 0 <= k < a.len() ==> a[k] != c,
    ensures
        find_char(a + b, c) == match find_char(b, c) {
            Some(j) => Some(a.len() + j),
            None => None::<int>,
        },
{
    assert(forall|k: int| 0 <= k < a.len() ==> (a + b)[k] != c);
    lemma_find_char_skip(a + b, 0, a.len() as int, c);
    lemma_find_char_shift(a, b, 0, c);
}

/// Searching from position `i` is searching the suffix that starts there.
pub proof fn lemma_find_from_as_suffix(s: Seq<char>, i: int, c: char)
    requires
        0 <= i <= s.len(),
    ensures
        find_char_from(s, i, c) == match find_char(s.skip(i), c) {
            Some(j) => Some(i + j),
            None => None::<int>,
        },
{
    lemma_find_char_shift(s.take(i), s.skip(i), 0, c);
    assert(s.take(i) + s.skip(i) =~= s);
}

// ---------------------------------------------------------------------------
// Lines
// ---------------------------------------------------------------------------

/// Split on `'\n'`; a trailing newline yields no trailing empty line, and the
/// empty text has no lines at all.
pub open spec fn split_lines(s: Seq<char>) -> Seq<Seq<char>>
    decreases s.len(),
    via split_lines_decreases
{
    if s.len() == 0 {
        Seq::empty()
    } else {
        match find_char(s, '\n') {
            None => seq![s],
            Some(i) => seq![s.take(i)] + split_lines(s.skip(i + 1)),
        }
    }
}

#[via_fn]
proof fn split_lines_decreases(s: Seq<char>) {
    lemma_find_char_from_spec(s, 0, '\n');
}

/// Join lines with `'\n'` between them.
pub open spec fn join_lines(ls: Seq<Seq<char>>) -> Seq<char>
    decreases ls.len(),
{
    if ls.len() == 0 {
        Seq::empty()
    } else if ls.len() == 1 {
        ls[0]
    } else {
        ls[0] + seq!['\n'] + join_lines(ls.drop_first())
    }
}

/// A newline-free first line splits off the front.
pub proof fn lemma_split_lines_line(a: Seq<char>, b: Seq<char>)
    requires
        forall|k: int| 0 <= k < a.len() ==> a[k] != '\n',
    ensures
        split_lines(a + seq!['\n'] + b) == seq![a] + split_lines(b),
{
    let s = a + seq!['\n'] + b;
    lemma_find_char_concat(a, seq!['\n'] + b, '\n');
    assert(find_char(seq!['\n'] + b, '\n') == Some(0int));
    assert(find_char(s, '\n') == Some(a.len() as int)) by {
        assert(a + (seq!['\n'] + b) =~= s);
    }
    assert(s.take(a.len() as int) =~= a);
    assert(s.skip(a.len() as int + 1) =~= b);
}

/// A nonempty text without newlines is a single line.
pub proof fn lemma_split_lines_single(s: Seq<char>)
    requires
        s.len() > 0,
        forall|k: int| 0 <= k < s.len() ==> s[k] != '\n',
    ensures
        split_lines(s) == seq![s],
{
    lemma_find_char_from_spec(s, 0, '\n');
}

/// Splitting into lines loses nothing but a trailing newline; without one,
/// joining the lines back restores the text.
pub proof fn lemma_join_split_lines(s: Seq<char>)
    requires
        s.len() == 0 || s[s.len() - 1] != '\n',
    ensures
        join_lines(split_lines(s)) == s,
    decreases s.len(),
{
    if s.len() > 0 {
        lemma_find_char_from_spec(s, 0, '\n');
        match find_char(s, '\n') {
            None => {},
            Some(i) => {
                let a = s.take(i);
                let b = s.skip(i + 1);
                assert(b.len() > 0) by {
                    assert(s[s.len() - 1] != '\n');
                }
                assert(b[b.len() - 1] == s[s.len() - 1]);
                lemma_join_split_lines(b);
                assert(split_lines(b).len() > 0) by {
                    if split_lines(b).len() == 0 {
                        assert(join_lines(split_lines(b)).len() == 0);
                    }
                }
                let ls = seq![a] + split_lines(b);
                assert(ls.drop_first() =~= split_lines(b));
                assert(join_lines(ls) =~= a + seq!['\n'] + b);
                assert(a + seq!['\n'] + b =~= s);
            },
        }
    }
}

/// Appending one more line to a join.
pub proof fn lemma_join_lines_push(ls: Seq<Seq<char>>, x: Seq<char>)
    ensures
        join_lines(ls.push(x)) == if ls.len() == 0 {
            x
        } else {
            join_lines(ls) + seq!['\n'] + x
        },
    decreases ls.len(),
{
    let p = ls.push(x);
    if ls.len() == 0 {
        assert(p.len() == 1);
        assert(p[0] == x);
    } else {
        assert(p.drop_first() =~= ls.drop_first().push(x));
        lemma_join_lines_push(ls.drop_first(), x);
        if ls.len() == 1 {
            assert(join_lines(ls) == ls[0]);
            assert(join_lines(p) =~= ls[0] + seq!['\n'] + x);
        } else {
            assert(join_lines(p) =~= join_lines(ls) + seq!['\n'] + x);
        }
    }
}

// ---------------------------------------------------------------------------
// Prefixes
// ---------------------------------------------------------------------------

pub open spec fn has_prefix(s: Seq<char>, p: Seq<char>) -> bool {
    p.len() <= s.len() && s.take(p.len() as int) == p
}

// ---------------------------------------------------------------------------
// Decimal numbers
// ---------------------------------------------------------------------------

pub open spec fn is_digit(c: char) -> bool {
    48 <= c as int <= 57
}

pub open spec fn digit_val(c: char) -> int {
    c as int - 48
}

pub open spec fn all_digits(s: Seq<char>) -> bool {
    forall|i: int| 0 <= i < s.len() ==> is_digit(#[trigger] s[i])
}

/// Value of a sequence of decimal digit characters.
pub open spec fn digits_val(s: Seq<char>) -> int
    decreases s.len(),
{
    if s.len() == 0 {
        0
    } else {
        digits_val(s.drop_last()) * 10 + digit_val(s.last())
    }
}

/// Value of an optionally `'-'`-signed, nonempty run of decimal digits;
/// anything else has no value.
pub open spec fn parse_dec(s: Seq<char>) -> Option<int> {
    if s.len() >= 1 && s[0] == '-' {
        if s.len() >= 2 && all_digits(s.skip(1)) {
            Some(-digits_val(s.skip(1)))
        } else {
            None
        }
    } else if s.len() >= 1 && all_digits(s) {
        Some(digits_val(s))
    } else {
        None
    }
}

pub open spec fn digit_char(d: int) -> char {
    if d == 0 {
        '0'
    } else if d == 1 {
        '1'
    } else if d == 2 {
        '2'
    } else if d == 3 {
        '3'
    } else if d == 4 {
        '4'
    } else if d == 5 {
        '5'
    } else if d == 6 {
        '6'
    } else if d == 7 {
        '7'
    } else if d == 8 {
        '8'
    } else {
        '9'
    }
}

/// Canonical decimal digits of a natural number, most significant first.
pub open spec fn dec_digits(n: nat) -> Seq<char>
    decreases n,
{
    if n < 10 {
        seq![digit_char(n as int)]
    } else {
        dec_digits(n / 10).push(digit_char((n % 10) as int))
    }
}

/// Canonical decimal form of an integer, with `'-'` for negative values.
pub open spec fn dec_int(v: int) -> Seq<char> {
    if v < 0 {
        seq!['-'] + dec_digits((-v) as nat)
    } else {
        dec_digits(v as nat)
    }
}

pub proof fn lemma_digit_char_val(d: int)
    requires
        0 <= d <= 9,
    ensures
        is_digit(digit_char(d)),
        digit_val(digit_char(d)) == d,
{
    assert('0' as int == 48);
    assert('1' as int == 49);
    assert('2' as int == 50);
    assert('3' as int == 51);
    assert('4' as int == 52);
    assert('5' as int == 53);
    assert('6' as int == 54);
    assert('7' as int == 55);
    assert('8' as int == 56);
    assert('9' as int == 57);
}

pub proof fn lemma_dec_digits_val(n: nat)
    ensures
        dec_digits(n).len() >= 1,
        all_digits(dec_digits(n)),
        digits_val(dec_digits(n)) == n,
    decreases n,
{
    if n < 10 {
        lemma_digit_char_val(n as int);
        assert(digits_val(dec_digits(n)) == n) by {
            lemma_digit_char_val(n as int);
            assert(dec_digits(n).drop_last() =~= Seq::<char>::empty());
            assert(digits_val(Seq::<char>::empty()) == 0);
        }
    } else {
        lemma_digit_char_val((n % 10) as int);
        lemma_dec_digits_val(n / 10);
        let d = dec_digits(n);
        assert(d.drop_last() =~= dec_digits(n / 10));
        assert(digits_val(d) == (n / 10) * 10 + (n % 10));
        assert((n / 10) * 10 + (n % 10) == n) by (nonlinear_arith);
    }
}

pub proof fn lemma_digits_val_nonneg(s: Seq<char>)
    requires
        all_digits(s),
    ensures
        digits_val(s) >= 0,
    decreases s.len(),
{
    if s.len() > 0 {
        lemma_digits_val_nonneg(s.drop_last());
    }
}

/// Reading back the canonical decimal form of `v` yields `v`.
pub proof fn lemma_parse_dec_int(v: int)
    ensures
        parse_dec(dec_int(v)) == Some(v),
{
    if v < 0 {
        lemma_dec_digits_val((-v) as nat);
        let s = seq!['-'] + dec_digits((-v) as nat);
        assert(s[0] == '-');
        assert(s.skip(1) =~= dec_digits((-v) as nat));
    } else {
        lemma_dec_digits_val(v as nat);
        let s = dec_digits(v as nat);
        assert(is_digit(s[0]));
        assert(s[0] != '-');
    }
}

/// Every character of a canonical decimal form is a digit or the sign.
pub proof fn lemma_dec_int_chars(v: int)
    ensures
        forall|i: int|
            0 <= i < dec_int(v).len() ==> is_digit(#[trigger] dec_int(v)[i]) || dec_int(v)[i]
                == '-',
{
    if v < 0 {
        lemma_dec_digits_val((-v) as nat);
        assert(forall|i: int|
            1 <= i < dec_int(v).len() ==> dec_int(v)[i] == dec_digits((-v) as nat)[i - 1]);
    } else {
        lemma_dec_digits_val(v as nat);
    }
}

// ---------------------------------------------------------------------------
// Executable helpers
// ---------------------------------------------------------------------------

/// First occurrence of `c` in `s` at or after `from`.
pub fn find_in(s: &str, from: usize, c: char) -> (r: Option<usize>)
    requires
        from <= s@.len(),
    ensures
        match r {
            Some(j) => from <= j < s@.len() && find_char_from(s@, from as int, c) == Some(j as int),
            None => find_char_from(s@, from as int, c) is None,
        },
{
    let n = s.unicode_len();
    let mut i = from;
    while i < n
        invariant
            from <= i <= n,
            n == s@.len(),
            forall|k: int| from <= k < i ==> s@[k] != c,
        decreases n - i,
    {
        if s.get_char(i) == c {
            proof {
                lemma_find_char_skip(s@, from as int, i as int, c);
            }
            return Some(i);
        }
        i += 1;
    }
    proof {
        lemma_find_char_skip(s@, from as int, n as int, c);
    }
    None
}

/// Whether `p` is a prefix of `s`.
pub fn prefix_of(s: &str, p: &str) -> (r: bool)
    ensures
        r == has_prefix(s@, p@),
{
    let np = p.unicode_len();
    let ns = s.unicode_len();
    if np > ns {
        return false;
    }
    let mut i: usize = 0;
    while i < np
        invariant
            0 <= i <= np,
            np == p@.len() <= s@.len(),
            ns == s@.len(),
            forall|k: int| 0 <= k < i ==> s@[k] == p@[k],
        decreases np - i,
    {
        if s.get_char(i) != p.get_char(i) {
            proof {
                assert(s@.take(np as int)[i as int] == s@[i as int]);
            }
            return false;
        }
        i += 1;
    }
    proof {
        assert(s@.take(np as int) =~= p@);
    }
    true
}

/// Whether two text slices hold the same characters.
pub fn str_eq(a: &str, b: &str) -> (r: bool)
    ensures
        r == (a@ == b@),
{
    let na = a.unicode_len();
    let nb = b.unicode_len();
    if na != nb {
        return false;
    }
    let mut i: usize = 0;
    while i < na
        invariant
            0 <= i <= na,
            na == a@.len() == b@.len(),
            forall|k: int| 0 <= k < i ==> a@[k] == b@[k],
        decreases na - i,
    {
        if a.get_char(i) != b.get_char(i) {
            return false;
        }
        i += 1;
    }
    proof {
        assert(a@ =~= b@);
    }
    true
}

/// The lines of `s`, as [`split_lines`] gives them.
pub fn split_lines_exec(s: &str) -> (r: Vec<String>)
    ensures
        r.deep_view() == split_lines(s@),
{
    let n = s.unicode_len();
    let mut r: Vec<String> = Vec::new();
    let mut pos: usize = 0;
    proof {
        assert(s@.skip(0) =~= s@);
        assert(r.deep_view() + split_lines(s@) =~= split_lines(s@));
    }
    while pos < n
        invariant
            pos <= n,
            n == s@.len(),
            split_lines(s@) == r.deep_view() + split_lines(s@.skip(pos as int)),
        decreases n - pos,
    {
        let ghost old_r = r.deep_view();
        let ghost suffix = s@.skip(pos as int);
        match find_in(s, pos, '\n') {
            Some(j) => {
                let line = s.substring_char(pos, j);
                r.push(line.to_owned());
                proof {
                    assert(find_char(suffix, '\n') == Some(j - pos as int)) by {
                        lemma_find_char_shift(s@.take(pos as int), suffix, 0, '\n');
                        assert(s@.take(pos as int) + suffix =~= s@);
                    }
                    assert(suffix.take(j - pos as int) =~= line@);
                    assert(suffix.skip(j - pos as int + 1) =~= s@.skip(j + 1));
                    assert(split_lines(suffix) == seq![line@] + split_lines(s@.skip(j + 1)));
                    assert(r.deep_view() =~= old_r.push(line@));
                    assert(old_r.push(line@) + split_lines(s@.skip(j + 1)) =~= old_r + split_lines(
                        suffix,
                    ));
                }
                pos = j + 1;
            },
            None => {
                let line = s.substring_char(pos, n);
                r.push(line.to_owned());
                proof {
                    assert(suffix.len() > 0);
                    lemma_find_char_shift(s@.take(pos as int), suffix, 0, '\n');
                    assert(s@.take(pos as int) + suffix =~= s@);
                    assert(find_char(suffix, '\n') is None) by {
                        lemma_find_char_from_spec(suffix, 0, '\n');
                    }
                    assert(suffix =~= line@);
                    assert(split_lines(suffix) == seq![line@]);
                    assert(r.deep_view() =~= old_r.push(line@));
                    assert(old_r.push(line@) + split_lines(Seq::<char>::empty()) =~= old_r
                        + split_lines(suffix));
                }
                pos = n;
            },
        }
    }
    proof {
        assert(s@.skip(n as int) =~= Seq::<char>::empty());
        assert(r.deep_view() + split_lines(Seq::<char>::empty()) =~= r.deep_view());
    }
    r
}

/// Join `lines[from..]` with newlines.
pub fn join_from(lines: &Vec<String>, from: usize) -> (r: String)
    requires
        from <= lines@.len(),
    ensures
        r@ == join_lines(lines.deep_view().subrange(from as int, lines@.len() as int)),
{
    let mut r = String::new();
    let mut i = from;
    while i < lines.len()
        invariant
            from <= i <= lines@.len(),
            r@ == join_lines(lines.deep_view().subrange(from as int, i as int)),
        decreases lines@.len() - i,
    {
        let ghost prefix = lines.deep_view().subrange(from as int, i as int);
        if i > from {
            r.append("\n");
        }
        r.append(lines[i].as_str());
        proof {
            reveal_strlit("\n");
            lemma_join_lines_push(prefix, lines.deep_view()[i as int]);
            assert(lines.deep_view().subrange(from as int, i + 1) =~= prefix.push(
                lines.deep_view()[i as int],
            ));
            if i == from {
                assert(prefix.len() == 0);
            } else {
                assert("\n"@ =~= seq!['\n']);
            }
        }
        i += 1;
    }
    proof {
        if from == lines@.len() {
            assert(lines.deep_view().subrange(from as int, from as int) =~= Seq::<Seq<
                char,
            >>::empty());
        }
    }
    r
}

/// The single-character text of one decimal digit.
fn digit_str(d: u64) -> (r: &'static str)
    requires
        d < 10,
    ensures
        r@ == seq![digit_char(d as int)],
{
    proof {
        reveal_strlit("0");
        reveal_strlit("1");
        reveal_strlit("2");
        reveal_strlit("3");
        reveal_strlit("4");
        reveal_strlit("5");
        reveal_strlit("6");
        reveal_strlit("7");
        reveal_strlit("8");
        reveal_strlit("9");
    }
    let r: &'static str = if d == 0 {
        "0"
    } else if d == 1 {
        "1"
    } else if d == 2 {
        "2"
    } else if d == 3 {
        "3"
    } else if d == 4 {
        "4"
    } else if d == 5 {
        "5"
    } else if d == 6 {
        "6"
    } else if d == 7 {
        "7"
    } else if d == 8 {
        "8"
    } else {
        "9"
    };
    proof {
        assert(r@ =~= seq![digit_char(d as int)]);
    }
    r
}

/// Decimal digits of `n`.
pub fn u64_to_dec(n: u64) -> (r: String)
    ensures
        r@ == dec_digits(n as nat),
    decreases n,
{
    if n < 10 {
        let s = digit_str(n);
        s.to_owned()
    } else {
        let r0 = u64_to_dec(n / 10);
        let r = r0.concat(digit_str(n % 10));
        proof {
            assert(r@ =~= dec_digits((n / 10) as nat).push(digit_char((n % 10) as int)));
        }
        r
    }
}

/// Canonical decimal form of `v`, with a leading `'-'` when negative.
pub fn i64_to_dec(v: i64) -> (r: String)
    ensures
        r@ == dec_int(v as int),
{
    if v >= 0 {
        u64_to_dec(v as u64)
    } else {
        let mag: u64 = if v == i64::MIN {
            9223372036854775808u64
        } else {
            (-v) as u64
        };
        let sign: String = "-".to_owned();
        let r = sign.concat(u64_to_dec(mag).as_str());
        proof {
            reveal_strlit("-");
            assert(mag as nat == (-(v as int)) as nat);
            assert(r@ =~= seq!['-'] + dec_digits((-(v as int)) as nat));
        }
        r
    }
}

/// Value of an optionally signed decimal text, when it lies within `i64`.
pub fn parse_dec_i64(s: &str) -> (r: Option<i64>)
    ensures
        parse_dec(s@) is None ==> r is None,
        parse_dec(s@) matches Some(v) ==> if i64::MIN <= v <= i64::MAX {
            r matches Some(x) && x as int == v
        } else {
            r is None
        },
{
    let n = s.unicode_len();
    if n == 0 {
        return None;
    }
    let neg = s.get_char(0) == '-';
    let start: usize = if neg {
        1
    } else {
        0
    };
    if start >= n {
        return None;
    }
    let mut i = start;
    let mut acc: u64 = 0;
    let mut big = false;
    while i < n
        invariant
            start <= i <= n,
            n == s@.len(),
            start < n,
            neg == (s@[0] == '-'),
            start == if neg { 1int } else { 0int },
            all_digits(s@.subrange(start as int, i as int)),
            !big ==> acc == digits_val(s@.subrange(start as int, i as int)),
            big ==> digits_val(s@.subrange(start as int, i as int)) > u64::MAX,
        decreases n - i,
    {
        let ghost prefix = s@.subrange(start as int, i as int);
        let c = s.get_char(i);
        let cv = c as u32;
        if !(48 <= cv && cv <= 57) {
            proof {
                assert(!is_digit(s@[i as int]));
                if neg {
                    assert(s@.skip(1)[i - 1] == s@[i as int]);
                }
            }
            return None;
        }
        let d: u64 = (cv - 48) as u64;
        proof {
            assert(s@.subrange(start as int, i + 1).drop_last() =~= prefix);
            assert(s@.subrange(start as int, i + 1).last() == s@[i as int]);
            lemma_digits_val_nonneg(prefix);
        }
        if big {
            proof {
                assert(digits_val(prefix) * 10 >= digits_val(prefix)) by (nonlinear_arith)
                    requires
                        digits_val(prefix) > 0,
                ;
            }
        } else if acc <= (u64::MAX - d) / 10 {
            acc = acc * 10 + d;
        } else {
            big = true;
            proof {
                assert(acc * 10 + d > u64::MAX) by (nonlinear_arith)
                    requires
                        acc > (u64::MAX - d) / 10,
                        d < 10,
                ;
            }
        }
        i += 1;
    }
    let ghost digits = s@.subrange(start as int, n as int);
    proof {
        if neg {
            assert(digits =~= s@.skip(1));
        } else {
            assert(digits =~= s@);
        }
        lemma_digits_val_nonneg(digits);
    }
    if big {
        return None;
    }
    if neg {
        if acc <= i64::MAX as u64 {
            Some(-(acc as i64))
        } else if acc == i64::MAX as u64 + 1 {
            Some(i64::MIN)
        } else {
            None
        }
    } else {
        if acc <= i64::MAX as u64 {
            Some(acc as i64)
        } else {
            None
        }
    }
}

} // verus!
