//! Character-level building blocks of the persisted form: decimal numbers,
//! quoted strings with escapes, and fixed literal pieces, each with an
//! encoder, a parser, and a proof that the parser reads the encoder's output
//! back exactly.

use vstd::prelude::*;
use vstd::string::StrSliceExecFns;

verus! {

/// Relies on `String::push`: appends exactly the one character.
#[verifier::external_body]
pub fn push_char(s: &mut String, c: char)
    ensures
        final(s)@ == old(s)@.push(c),
{
    s.push(c);
}

pub open spec fn is_digit(c: char) -> bool {
    ||| c == '0'
    ||| c == '1'
    ||| c == '2'
    ||| c == '3'
    ||| c == '4'
    ||| c == '5'
    ||| c == '6'
    ||| c == '7'
    ||| c == '8'
    ||| c == '9'
}

pub open spec fn digit_char(d: int) -> char {
    if d == 0 { '0' }
    else if d == 1 { '1' }
    else if d == 2 { '2' }
    else if d == 3 { '3' }
    else if d == 4 { '4' }
    else if d == 5 { '5' }
    else if d == 6 { '6' }
    else if d == 7 { '7' }
    else if d == 8 { '8' }
    else { '9' }
}

pub open spec fn digit_val(c: char) -> int {
    if c == '0' { 0 }
    else if c == '1' { 1 }
    else if c == '2' { 2 }
    else if c == '3' { 3 }
    else if c == '4' { 4 }
    else if c == '5' { 5 }
    else if c == '6' { 6 }
    else if c == '7' { 7 }
    else if c == '8' { 8 }
    else { 9 }
}

/// Decimal digits of `n`, most significant first; empty for 0.
pub open spec fn dec_digits(n: nat) -> Seq<char>
    decreases n,
{
    if n == 0 {
        Seq::empty()
    } else {
        dec_digits(n / 10).push(digit_char((n % 10) as int))
    }
}

/// The decimal form of `n`: its digits, or "0".
pub open spec fn enc_u32(n: u32) -> Seq<char> {
    if n == 0 {
        seq!['0']
    } else {
        dec_digits(n as nat)
    }
}

fn digit_to_char(d: u32) -> (c: char)
    requires
        d < 10,
    ensures
        c == digit_char(d as int),
{
    match d {
        0 => '0',
        1 => '1',
        2 => '2',
        3 => '3',
        4 => '4',
        5 => '5',
        6 => '6',
        7 => '7',
        8 => '8',
        _ => '9',
    }
}

fn char_digit(c: char) -> (d: Option<u32>)
    ensures
        match d {
            Some(v) => is_digit(c) && v == digit_val(c) && v < 10,
            None => !is_digit(c),
        },
{
    match c {
        '0' => Some(0),
        '1' => Some(1),
        '2' => Some(2),
        '3' => Some(3),
        '4' => Some(4),
        '5' => Some(5),
        '6' => Some(6),
        '7' => Some(7),
        '8' => Some(8),
        '9' => Some(9),
        _ => None,
    }
}

fn print_dec_digits(n: u32, out: &mut String)
    ensures
        final(out)@ == old(out)@ + dec_digits(n as nat),
    decreases n,
{
    if n == 0 {
        proof {
            assert(old(out)@ + dec_digits(0) =~= old(out)@);
        }
        return ;
    }
    print_dec_digits(n / 10, out);
    let d = n % 10;
    push_char(out, digit_to_char(d));
    proof {
        assert(out@ =~= old(out)@ + dec_digits(n as nat));
    }
}

/// Appends the decimal form of `n`.
pub fn print_u32(n: u32, out: &mut String)
    ensures
        final(out)@ == old(out)@ + enc_u32(n),
{
    if n == 0 {
        push_char(out, '0');
        proof {
            assert(out@ =~= old(out)@ + enc_u32(0));
        }
    } else {
        print_dec_digits(n, out);
    }
}

/// What a run of decimal digits starting at `i` parses to, folding into
/// `acc`; stops before the first non-digit, fails past `u32::MAX`.
pub open spec fn sp_digits(s: Seq<char>, i: int, acc: u32) -> Option<(u32, int)>
    decreases s.len() - i,
{
    if i < 0 || i >= s.len() || !is_digit(s[i]) {
        Some((acc, i))
    } else {
        let v = acc * 10 + digit_val(s[i]);
        if v > u32::MAX {
            None
        } else {
            sp_digits(s, i + 1, v as u32)
        }
    }
}

/// What a decimal number starting at `i` parses to: at least one digit.
pub open spec fn sp_u32(s: Seq<char>, i: int) -> Option<(u32, int)> {
    if 0 <= i < s.len() && is_digit(s[i]) {
        sp_digits(s, i, 0)
    } else {
        None
    }
}

/// Parses a decimal number at `i`, exactly as `sp_u32` says.
pub fn parse_u32(s: &str, i: usize) -> (r: Option<(u32, usize)>)
    ensures
        match r {
            Some((v, j)) => sp_u32(s@, i as int) == Some((v, j as int)) && i < j <= s@.len(),
            None => sp_u32(s@, i as int) is None,
        },
{
    let n = s.unicode_len();
    if i >= n {
        return None;
    }
    match char_digit(s.get_char(i)) {
        None => {
            return None;
        },
        Some(_) => {},
    }
    let mut acc: u32 = 0;
    let mut j: usize = i;
    loop
        invariant
            i <= j <= n,
            n == s@.len(),
            is_digit(s@[i as int]),
            i < j || acc == 0,
            sp_u32(s@, i as int) == sp_digits(s@, j as int, acc),
        decreases n - j,
    {
        if j >= n {
            return Some((acc, j));
        }
        match char_digit(s.get_char(j)) {
            None => {
                return Some((acc, j));
            },
            Some(d) => {
                let v: u64 = acc as u64 * 10 + d as u64;
                if v > u32::MAX as u64 {
                    return None;
                }
                acc = v as u32;
                j = j + 1;
            },
        }
    }
}

/// The value of a digit string folded onto `acc`, most significant first.
pub open spec fn val_left(ds: Seq<char>, acc: int) -> int
    decreases ds.len(),
{
    if ds.len() == 0 {
        acc
    } else {
        val_left(ds.skip(1), acc * 10 + digit_val(ds[0]))
    }
}

proof fn lemma_val_left_ge(ds: Seq<char>, acc: int)
    requires
        acc >= 0,
    ensures
        val_left(ds, acc) >= acc,
    decreases ds.len(),
{
    if ds.len() > 0 {
        lemma_val_left_ge(ds.skip(1), acc * 10 + digit_val(ds[0]));
    }
}

proof fn lemma_val_left_push(ds: Seq<char>, c: char, acc: int)
    ensures
        val_left(ds.push(c), acc) == val_left(ds, acc) * 10 + digit_val(c),
    decreases ds.len(),
{
    assert(ds.push(c)[0] == if ds.len() == 0 { c } else { ds[0] });
    if ds.len() == 0 {
        assert(ds.push(c).skip(1) =~= Seq::<char>::empty());
        assert(val_left(Seq::<char>::empty(), acc * 10 + digit_val(c)) == acc * 10 + digit_val(c));
        assert(val_left(ds.push(c), acc) == acc * 10 + digit_val(c));
    } else {
        assert(ds.push(c).skip(1) =~= ds.skip(1).push(c));
        lemma_val_left_push(ds.skip(1), c, acc * 10 + digit_val(ds[0]));
    }
}

/// Every character of `lit` stands in `s` at its offset from `i`.
pub proof fn lemma_subrange_chars(s: Seq<char>, i: int, lit: Seq<char>)
    requires
        0 <= i,
        i + lit.len() <= s.len(),
        s.subrange(i, i + lit.len()) == lit,
    ensures
        forall|k: int| 0 <= k < lit.len() ==> s[i + k] == #[trigger] lit[k],
{
    assert forall|k: int| 0 <= k < lit.len() implies s[i + k] == #[trigger] lit[k] by {
        assert(s.subrange(i, i + lit.len())[k] == s[i + k]);
    }
}

/// A region known to hold `a + b` holds `a` and then `b`.
pub proof fn lemma_lit_split(s: Seq<char>, i: int, a: Seq<char>, b: Seq<char>)
    requires
        0 <= i,
        i + a.len() + b.len() <= s.len(),
        s.subrange(i, i + a.len() + b.len()) == a + b,
    ensures
        s.subrange(i, i + a.len()) == a,
        s.subrange(i + a.len(), i + a.len() + b.len()) == b,
{
    lemma_subrange_chars(s, i, a + b);
    assert forall|k: int| 0 <= k < a.len() implies s.subrange(i, i + a.len())[k] == a[k] by {
        assert(s[i + k] == (a + b)[k]);
    }
    assert(s.subrange(i, i + a.len()) =~= a);
    assert forall|k: int|
        0 <= k < b.len() implies s.subrange(i + a.len(), i + a.len() + b.len())[k] == b[k] by {
        assert(s[i + (a.len() + k)] == (a + b)[a.len() + k]);
        assert((a + b)[a.len() + k] == b[k]);
    }
    assert(s.subrange(i + a.len(), i + a.len() + b.len()) =~= b);
}

proof fn lemma_dec_digits_value(n: nat)
    ensures
        val_left(dec_digits(n), 0) == n,
        forall|k: int| 0 <= k < dec_digits(n).len() ==> is_digit(#[trigger] dec_digits(n)[k]),
    decreases n,
{
    if n > 0 {
        lemma_dec_digits_value(n / 10);
        lemma_val_left_push(dec_digits(n / 10), digit_char((n % 10) as int), 0);
        assert(digit_val(digit_char((n % 10) as int)) == n % 10);
        assert(val_left(dec_digits(n), 0) == (n / 10) * 10 + n % 10);
        assert((n / 10) * 10 + n % 10 == n) by {
            vstd::arithmetic::div_mod::lemma_fundamental_div_mod(n as int, 10);
        }
    }
}

proof fn lemma_sp_digits_complete(s: Seq<char>, i: int, ds: Seq<char>, acc: u32)
    requires
        0 <= i,
        i + ds.len() <= s.len(),
        forall|k: int| 0 <= k < ds.len() ==> is_digit(#[trigger] ds[k]),
        s.subrange(i, i + ds.len()) == ds,
        i + ds.len() < s.len() ==> !is_digit(s[i + ds.len()]),
        val_left(ds, acc as int) <= u32::MAX,
    ensures
        sp_digits(s, i, acc) == Some((val_left(ds, acc as int) as u32, i + ds.len())),
    decreases ds.len(),
{
    if ds.len() == 0 {
    } else {
        assert(s[i] == ds[0]);
        let v = acc * 10 + digit_val(ds[0]);
        lemma_val_left_ge(ds.skip(1), v);
        assert(v <= u32::MAX);
        assert(s.subrange(i + 1, i + 1 + ds.skip(1).len()) =~= ds.skip(1));
        assert forall|k: int| 0 <= k < ds.skip(1).len() implies is_digit(#[trigger] ds.skip(1)[k]) by {
            assert(ds.skip(1)[k] == ds[k + 1]);
        }
        lemma_sp_digits_complete(s, i + 1, ds.skip(1), v as u32);
    }
}

/// The parser reads a printed number back: after `enc_u32(n)` and before a
/// non-digit, `sp_u32` yields exactly `n`.
pub proof fn lemma_sp_u32_complete(s: Seq<char>, i: int, n: u32)
    requires
        0 <= i,
        i + enc_u32(n).len() <= s.len(),
        s.subrange(i, i + enc_u32(n).len()) == enc_u32(n),
        i + enc_u32(n).len() < s.len() ==> !is_digit(s[i + enc_u32(n).len()]),
    ensures
        sp_u32(s, i) == Some((n, i + enc_u32(n).len())),
{
    lemma_dec_digits_value(n as nat);
    lemma_subrange_chars(s, i, enc_u32(n));
    assert(s[i] == enc_u32(n)[0]);
    if n == 0 {
        assert(seq!['0'][0] == '0');
        assert(val_left(seq!['0'], 0) == 0) by {
            assert(seq!['0'].skip(1) =~= Seq::<char>::empty());
        }
        lemma_sp_digits_complete(s, i, seq!['0'], 0);
    } else {
        assert(dec_digits(n as nat).len() > 0);
        lemma_sp_digits_complete(s, i, dec_digits(n as nat), 0);
    }
}

pub open spec fn needs_escape(c: char) -> bool {
    c == '"' || c == '\\' || c == '\n' || c == '\r' || c == '\t'
}

pub open spec fn esc_code(c: char) -> char {
    if c == '"' { '"' }
    else if c == '\\' { '\\' }
    else if c == '\n' { 'n' }
    else if c == '\r' { 'r' }
    else { 't' }
}

pub open spec fn unesc_code(c: char) -> Option<char> {
    if c == '"' { Some('"') }
    else if c == '\\' { Some('\\') }
    else if c == 'n' { Some('\n') }
    else if c == 'r' { Some('\r') }
    else if c == 't' { Some('\t') }
    else { None }
}

pub open spec fn escape_char(c: char) -> Seq<char> {
    if needs_escape(c) {
        seq!['\\', esc_code(c)]
    } else {
        seq![c]
    }
}

/// The body of a quoted string: every character escaped as needed.
pub open spec fn escape_str(s: Seq<char>) -> Seq<char>
    decreases s.len(),
{
    if s.len() == 0 {
        Seq::empty()
    } else {
        escape_str(s.drop_last()) + escape_char(s.last())
    }
}

/// A quoted string: the escaped body between double quotes.
pub open spec fn enc_str(s: Seq<char>) -> Seq<char> {
    seq!['"'] + escape_str(s) + seq!['"']
}

proof fn lemma_escape_str_first(s: Seq<char>)
    requires
        s.len() > 0,
    ensures
        escape_str(s) == escape_char(s[0]) + escape_str(s.skip(1)),
    decreases s.len(),
{
    if s.len() == 1 {
        assert(s.drop_last().len() == 0);
        assert(s.skip(1).len() == 0);
        assert(s.last() == s[0]);
        assert(escape_str(s.drop_last()) == Seq::<char>::empty());
        assert(escape_str(s) =~= escape_char(s[0]));
        assert(escape_str(s) =~= escape_char(s[0]) + escape_str(s.skip(1)));
    } else {
        let dl = s.drop_last();
        lemma_escape_str_first(dl);
        assert(dl[0] == s[0]);
        assert(escape_str(s) == (escape_char(s[0]) + escape_str(dl.skip(1))) + escape_char(s.last()));
        assert(s.skip(1).drop_last() =~= dl.skip(1));
        assert(s.skip(1).last() == s.last());
        assert(s.skip(1).len() > 0);
        assert(escape_str(s.skip(1)) == escape_str(dl.skip(1)) + escape_char(s.last()));
        assert(escape_str(s) =~= escape_char(s[0]) + escape_str(s.skip(1)));
    }
}

/// What a quoted string body starting at `i` (after the opening quote)
/// parses to, appended to `acc`; ends at an unescaped quote.
pub open spec fn sp_str_body(s: Seq<char>, i: int, acc: Seq<char>) -> Option<(Seq<char>, int)>
    decreases s.len() - i,
{
    if i < 0 || i >= s.len() {
        None
    } else if s[i] == '"' {
        Some((acc, i + 1))
    } else if s[i] == '\\' {
        if i + 1 < s.len() {
            match unesc_code(s[i + 1]) {
                Some(c) => sp_str_body(s, i + 2, acc.push(c)),
                None => None,
            }
        } else {
            None
        }
    } else {
        sp_str_body(s, i + 1, acc.push(s[i]))
    }
}

/// What a quoted string starting at `i` parses to.
pub open spec fn sp_str(s: Seq<char>, i: int) -> Option<(Seq<char>, int)> {
    if 0 <= i < s.len() && s[i] == '"' {
        sp_str_body(s, i + 1, Seq::empty())
    } else {
        None
    }
}

/// Parses a quoted string at `i`, exactly as `sp_str` says.
pub fn parse_str(s: &str, i: usize) -> (r: Option<(String, usize)>)
    ensures
        match r {
            Some((v, j)) => sp_str(s@, i as int) == Some((v@, j as int)) && i < j <= s@.len(),
            None => sp_str(s@, i as int) is None,
        },
{
    let n = s.unicode_len();
    if i >= n {
        return None;
    }
    if s.get_char(i) != '"' {
        return None;
    }
    let mut out = String::new();
    let mut j = i + 1;
    loop
        invariant
            i + 1 <= j <= n,
            n == s@.len(),
            sp_str(s@, i as int) == sp_str_body(s@, j as int, out@),
        decreases n - j,
    {
        if j >= n {
            return None;
        }
        let c = s.get_char(j);
        if c == '"' {
            return Some((out, j + 1));
        }
        if c == '\\' {
            if j + 1 >= n {
                return None;
            }
            let u = match s.get_char(j + 1) {
                '"' => '"',
                '\\' => '\\',
                'n' => '\n',
                'r' => '\r',
                't' => '\t',
                _ => {
                    return None;
                },
            };
            push_char(&mut out, u);
            j = j + 2;
        } else {
            push_char(&mut out, c);
            j = j + 1;
        }
    }
}

proof fn lemma_sp_str_body_complete(s: Seq<char>, i: int, v: Seq<char>, acc: Seq<char>)
    requires
        0 <= i,
        i + escape_str(v).len() + 1 <= s.len(),
        s.subrange(i, i + escape_str(v).len() + 1) == escape_str(v).push('"'),
    ensures
        sp_str_body(s, i, acc) == Some((acc + v, i + escape_str(v).len() + 1)),
    decreases v.len(),
{
    if v.len() == 0 {
        lemma_subrange_chars(s, i, escape_str(v).push('"'));
        assert(s[i] == escape_str(v).push('"')[0]);
        assert(s[i] == '"');
        assert(acc + v =~= acc);
    } else {
        lemma_escape_str_first(v);
        let e0 = escape_char(v[0]);
        let rest = escape_str(v.skip(1));
        assert(escape_str(v).push('"') =~= e0 + rest.push('"'));
        lemma_lit_split(s, i, e0, rest.push('"'));
        lemma_subrange_chars(s, i, e0);
        let i2 = i + e0.len();
        if needs_escape(v[0]) {
            assert(s[i + 0] == e0[0]);
            assert(s[i + 1] == e0[1]);
            assert(s[i] == '\\');
            assert(s[i + 1] == esc_code(v[0]));
            assert(unesc_code(esc_code(v[0])) == Some(v[0]));
            lemma_sp_str_body_complete(s, i + 2, v.skip(1), acc.push(v[0]));
            assert(acc.push(v[0]) + v.skip(1) =~= acc + v);
        } else {
            assert(s[i + 0] == e0[0]);
            assert(s[i] == v[0]);
            assert(s[i] != '"' && s[i] != '\\');
            lemma_sp_str_body_complete(s, i + 1, v.skip(1), acc.push(v[0]));
            assert(acc.push(v[0]) + v.skip(1) =~= acc + v);
        }
    }
}

/// The parser reads a printed string back: after `enc_str(v)`, `sp_str`
/// yields exactly `v`.
pub proof fn lemma_sp_str_complete(s: Seq<char>, i: int, v: Seq<char>)
    requires
        0 <= i,
        i + enc_str(v).len() <= s.len(),
        s.subrange(i, i + enc_str(v).len()) == enc_str(v),
    ensures
        sp_str(s, i) == Some((v, i + enc_str(v).len())),
{
    let q = seq!['"'];
    let body = escape_str(v).push('"');
    assert(enc_str(v) =~= q + body);
    lemma_lit_split(s, i, q, body);
    lemma_subrange_chars(s, i, q);
    assert(s[i + 0] == q[0]);
    assert(s[i] == '"');
    lemma_sp_str_body_complete(s, i + 1, v, Seq::empty());
    assert(Seq::empty() + v =~= v);
}

/// Appends the quoted, escaped form of `v`.
pub fn print_str(v: &str, out: &mut String)
    ensures
        final(out)@ == old(out)@ + enc_str(v@),
{
    push_char(out, '"');
    let n = v.unicode_len();
    let mut i: usize = 0;
    while i < n
        invariant
            i <= n,
            n == v@.len(),
            out@ == old(out)@ + seq!['"'] + escape_str(v@.take(i as int)),
        decreases n - i,
    {
        let c = v.get_char(i);
        if c == '"' || c == '\\' {
            push_char(out, '\\');
            push_char(out, c);
        } else if c == '\n' {
            push_char(out, '\\');
            push_char(out, 'n');
        } else if c == '\r' {
            push_char(out, '\\');
            push_char(out, 'r');
        } else if c == '\t' {
            push_char(out, '\\');
            push_char(out, 't');
        } else {
            push_char(out, c);
        }
        proof {
            assert(v@.take(i + 1).drop_last() =~= v@.take(i as int));
            assert(v@.take(i + 1).last() == v@[i as int]);
            assert(out@ =~= old(out)@ + seq!['"'] + escape_str(v@.take(i + 1)));
        }
        i = i + 1;
    }
    push_char(out, '"');
    proof {
        assert(v@.take(n as int) =~= v@);
        assert(out@ =~= old(out)@ + enc_str(v@));
    }
}

/// Whether the fixed text `lit` stands at `i`; on success the position after
/// it.
pub open spec fn sp_lit(s: Seq<char>, i: int, lit: Seq<char>) -> Option<int> {
    if 0 <= i && i + lit.len() <= s.len() && s.subrange(i, i + lit.len()) == lit {
        Some(i + lit.len())
    } else {
        None
    }
}

/// Matches the fixed text `lit` at `i`, exactly as `sp_lit` says.
pub fn expect(s: &str, i: usize, lit: &str) -> (r: Option<usize>)
    ensures
        match r {
            Some(j) => sp_lit(s@, i as int, lit@) == Some(j as int) && i <= j <= s@.len(),
            None => sp_lit(s@, i as int, lit@) is None,
        },
{
    let n = s.unicode_len();
    let m = lit.unicode_len();
    if i > n || m > n - i {
        return None;
    }
    let mut k: usize = 0;
    while k < m
        invariant
            k <= m,
            i + m <= n,
            n == s@.len(),
            m == lit@.len(),
            forall|t: int| 0 <= t < k ==> s@[i + t] == lit@[t],
        decreases m - k,
    {
        if s.get_char(i + k) != lit.get_char(k) {
            proof {
                assert(s@.subrange(i as int, i + m)[k as int] == s@[i + k]);
            }
            return None;
        }
        k = k + 1;
    }
    proof {
        assert(s@.subrange(i as int, i + m) =~= lit@);
    }
    Some(i + m)
}

} // verus!
