//! Text encodings used by the chain: decimal numbers, hexadecimal digits
//! and JSON strings.
use vstd::prelude::*;

verus! {

/// The ASCII character of a decimal digit.
pub open spec fn digit_char(d: nat) -> char {
    (48 + d) as char
}

/// The decimal representation of `n`, without sign or leading zeros.
pub open spec fn decimal(n: nat) -> Seq<char>
    decreases n,
{
    if n < 10 {
        seq![digit_char(n)]
    } else {
        decimal(n / 10).push(digit_char(n % 10))
    }
}

/// The lower-case hexadecimal digit for `d < 16`.
pub open spec fn hex_digit_char(d: nat) -> char {
    if d < 10 {
        (48 + d) as char
    } else {
        (87 + d) as char
    }
}

/// How one character is written inside a JSON string literal: `"` and `\\`
/// behind a backslash, the usual short escapes for backspace, tab, line
/// feed, form feed and carriage return, `\u00` and two lower-case hex
/// digits for the other control characters, and any other character as it is.
pub open spec fn json_escape_char(c: char) -> Seq<char> {
    if c == '"' {
        seq!['\\', '"']
    } else if c == '\\' {
        seq!['\\', '\\']
    } else if c == '\u{8}' {
        seq!['\\', 'b']
    } else if c == '\t' {
        seq!['\\', 't']
    } else if c == '\n' {
        seq!['\\', 'n']
    } else if c == '\u{c}' {
        seq!['\\', 'f']
    } else if c == '\r' {
        seq!['\\', 'r']
    } else if (c as u32) < 0x20 {
        seq![
            '\\',
            'u',
            '0',
            '0',
            hex_digit_char((c as u32 / 16) as nat),
            hex_digit_char((c as u32 % 16) as nat),
        ]
    } else {
        seq![c]
    }
}

/// The escaped body of a JSON string literal.
pub open spec fn json_escape(s: Seq<char>) -> Seq<char>
    decreases s.len(),
{
    if s.len() == 0 {
        Seq::empty()
    } else {
        json_escape(s.drop_last()) + json_escape_char(s.last())
    }
}

/// A JSON string literal holding `s`, quotes included.
pub open spec fn json_string(s: Seq<char>) -> Seq<char> {
    seq!['"'] + json_escape(s) + seq!['"']
}

/// Whether `c` is a decimal digit.
pub open spec fn is_digit(c: char) -> bool {
    '0' <= c <= '9'
}

proof fn lemma_decimal_digits(n: nat)
    ensures
        decimal(n).len() >= 1,
        n >= 10 ==> decimal(n).len() >= 2,
        forall|i: int| 0 <= i < decimal(n).len() ==> is_digit(#[trigger] decimal(n)[i]),
    decreases n,
{
    if n >= 10 {
        lemma_decimal_digits(n / 10);
        let d = decimal(n / 10);
        assert forall|i: int| 0 <= i < decimal(n).len() implies is_digit(#[trigger] decimal(n)[i]) by {
            if i < d.len() {
                assert(decimal(n)[i] == d[i]);
            }
        }
    }
}

proof fn lemma_decimal_injective(a: nat, b: nat)
    requires
        decimal(a) == decimal(b),
    ensures
        a == b,
    decreases a,
{
    lemma_decimal_digits(a);
    lemma_decimal_digits(b);
    if a >= 10 && b >= 10 {
        assert(decimal(a).last() == digit_char(a % 10));
        assert(decimal(b).last() == digit_char(b % 10));
        assert(decimal(a).drop_last() =~= decimal(a / 10));
        assert(decimal(b).drop_last() =~= decimal(b / 10));
        lemma_decimal_injective(a / 10, b / 10);
        assert(a % 10 == b % 10);
        assert(a == 10 * (a / 10) + a % 10);
        assert(b == 10 * (b / 10) + b % 10);
    } else if a < 10 && b < 10 {
        assert(decimal(a)[0] == digit_char(a));
        assert(decimal(b)[0] == digit_char(b));
    } else {
        assert(decimal(a).len() != decimal(b).len());
    }
}

/// A decimal number followed by text that starts with something other than
/// a digit can be read back: the number and the text are determined.
pub proof fn lemma_decimal_split(a: nat, b: nat, x: Seq<char>, y: Seq<char>)
    requires
        decimal(a) + x == decimal(b) + y,
        x.len() > 0 && !is_digit(x[0]),
        y.len() > 0 && !is_digit(y[0]),
    ensures
        a == b,
        x == y,
{
    let da = decimal(a);
    let db = decimal(b);
    lemma_decimal_digits(a);
    lemma_decimal_digits(b);
    if da.len() < db.len() {
        assert((da + x)[da.len() as int] == x[0]);
        assert((db + y)[da.len() as int] == db[da.len() as int]);
    } else if db.len() < da.len() {
        assert((db + y)[db.len() as int] == y[0]);
        assert((da + x)[db.len() as int] == da[db.len() as int]);
    } else {
        assert(da =~= (da + x).subrange(0, da.len() as int));
        assert(db =~= (db + y).subrange(0, db.len() as int));
        lemma_decimal_injective(a, b);
        assert(x =~= (da + x).subrange(da.len() as int, (da + x).len() as int));
        assert(y =~= (db + y).subrange(db.len() as int, (db + y).len() as int));
    }
}

proof fn lemma_escape_prepend(c: char, s: Seq<char>)
    ensures
        json_escape(seq![c] + s) == json_escape_char(c) + json_escape(s),
    decreases s.len(),
{
    let w = seq![c] + s;
    if s.len() == 0 {
        assert(w.drop_last() =~= Seq::<char>::empty());
        assert(json_escape(Seq::<char>::empty()) == Seq::<char>::empty());
        assert(json_escape(w) =~= json_escape_char(c));
    } else {
        assert(w.drop_last() =~= seq![c] + s.drop_last());
        assert(w.last() == s.last());
        lemma_escape_prepend(c, s.drop_last());
        assert(json_escape(w) =~= json_escape_char(c) + json_escape(s));
    }
}

proof fn lemma_hex_digit_injective(a: nat, b: nat)
    requires
        a < 16,
        b < 16,
        hex_digit_char(a) == hex_digit_char(b),
    ensures
        a == b,
{
}

proof fn lemma_escape_char_shape(c: char)
    ensures
        json_escape_char(c).len() >= 1,
        json_escape_char(c)[0] != '"',
        json_escape_char(c)[0] != '\\' ==> json_escape_char(c) == seq![c],
{
}

/// The escapes of two characters that start the same text are the same
/// escape, of the same character.
proof fn lemma_escape_char_split(c1: char, c2: char, x: Seq<char>, y: Seq<char>)
    requires
        json_escape_char(c1) + x == json_escape_char(c2) + y,
    ensures
        c1 == c2,
        x == y,
{
    let e1 = json_escape_char(c1);
    let e2 = json_escape_char(c2);
    lemma_escape_char_shape(c1);
    lemma_escape_char_shape(c2);
    let w = e1 + x;
    assert(w[0] == e1[0]);
    assert((e2 + y)[0] == e2[0]);
    if e1[0] == '\\' {
        assert(e1.len() >= 2 && e2.len() >= 2);
        assert(w[1] == e1[1]);
        assert((e2 + y)[1] == e2[1]);
        if e1[1] == 'u' {
            assert(e2[1] == 'u');
            assert(e1.len() == 6 && e2.len() == 6);
            assert(w[4] == e1[4] && (e2 + y)[4] == e2[4]);
            assert(w[5] == e1[5] && (e2 + y)[5] == e2[5]);
            lemma_hex_digit_injective((c1 as u32 / 16) as nat, (c2 as u32 / 16) as nat);
            lemma_hex_digit_injective((c1 as u32 % 16) as nat, (c2 as u32 % 16) as nat);
            assert(c1 as u32 == c2 as u32);
        }
    }
    assert(c1 == c2);
    assert(x =~= w.subrange(e1.len() as int, w.len() as int));
    assert(y =~= (e2 + y).subrange(e2.len() as int, w.len() as int));
}

/// An escaped string body followed by text that starts with a quote can be
/// read back: the string and the text are determined.
pub proof fn lemma_escape_split(a: Seq<char>, b: Seq<char>, x: Seq<char>, y: Seq<char>)
    requires
        json_escape(a) + x == json_escape(b) + y,
        x.len() > 0 && x[0] == '"',
        y.len() > 0 && y[0] == '"',
    ensures
        a == b,
        x == y,
    decreases a.len(),
{
    if a.len() == 0 && b.len() == 0 {
        assert(json_escape(a) == Seq::<char>::empty());
        assert(json_escape(b) == Seq::<char>::empty());
        assert(a =~= b);
        assert(x =~= json_escape(a) + x);
        assert(y =~= json_escape(b) + y);
    } else if a.len() == 0 {
        assert(b =~= seq![b[0]] + b.drop_first());
        lemma_escape_prepend(b[0], b.drop_first());
        lemma_escape_char_shape(b[0]);
        assert(json_escape(a) == Seq::<char>::empty());
        assert(x =~= json_escape(a) + x);
        assert((json_escape(b) + y)[0] == json_escape_char(b[0])[0]);
    } else if b.len() == 0 {
        assert(a =~= seq![a[0]] + a.drop_first());
        lemma_escape_prepend(a[0], a.drop_first());
        lemma_escape_char_shape(a[0]);
        assert(json_escape(b) == Seq::<char>::empty());
        assert(y =~= json_escape(b) + y);
        assert((json_escape(a) + x)[0] == json_escape_char(a[0])[0]);
    } else {
        let a1 = a.drop_first();
        let b1 = b.drop_first();
        assert(a =~= seq![a[0]] + a1);
        assert(b =~= seq![b[0]] + b1);
        lemma_escape_prepend(a[0], a1);
        lemma_escape_prepend(b[0], b1);
        assert(json_escape(a) + x =~= json_escape_char(a[0]) + (json_escape(a1) + x));
        assert(json_escape(b) + y =~= json_escape_char(b[0]) + (json_escape(b1) + y));
        lemma_escape_char_split(a[0], b[0], json_escape(a1) + x, json_escape(b1) + y);
        lemma_escape_split(a1, b1, x, y);
    }
}

/// Calls `serde_json::to_string` on the string `s`: its JSON string
/// literal, escaped as `json_escape_char` says. Writing a string into
/// memory cannot fail.
#[verifier::external_body]
fn json_quote(s: &str) -> (r: String)
    ensures
        r@ == json_string(s@),
{
    serde_json::to_string(s).unwrap_or_default()
}

/// The one-character string of a decimal digit.
fn digit_str(d: u64) -> (r: &'static str)
    requires
        d < 10,
    ensures
        r@ == seq![digit_char(d as nat)],
{
    if d == 0 {
        proof { reveal_strlit("0"); }
        "0"
    } else if d == 1 {
        proof { reveal_strlit("1"); }
        "1"
    } else if d == 2 {
        proof { reveal_strlit("2"); }
        "2"
    } else if d == 3 {
        proof { reveal_strlit("3"); }
        "3"
    } else if d == 4 {
        proof { reveal_strlit("4"); }
        "4"
    } else if d == 5 {
        proof { reveal_strlit("5"); }
        "5"
    } else if d == 6 {
        proof { reveal_strlit("6"); }
        "6"
    } else if d == 7 {
        proof { reveal_strlit("7"); }
        "7"
    } else if d == 8 {
        proof { reveal_strlit("8"); }
        "8"
    } else {
        proof { reveal_strlit("9"); }
        "9"
    }
}

/// Writes `n` in decimal, as `Display` does for unsigned integers.
pub fn decimal_string(n: u64) -> (r: String)
    ensures
        r@ == decimal(n as nat),
    decreases n,
{
    if n < 10 {
        let mut s = String::new();
        s.append(digit_str(n));
        s
    } else {
        let mut s = decimal_string(n / 10);
        s.append(digit_str(n % 10));
        s
    }
}

/// Appends `s` as a JSON string literal, as `serde_json` writes it.
pub fn push_json_string(out: &mut String, s: &str)
    ensures
        final(out)@ == old(out)@ + json_string(s@),
{
    let quoted = json_quote(s);
    out.append(quoted.as_str());
}

} // verus!
