//! Decimal text and semicolon-separated field lists: the textual ground the
//! KDLAB wire codec is built on.
//!
//! Numbers travel on the wire in plain decimal.  `dec_str` is the canonical
//! rendering of a natural number, `parse_dec` / `parse_signed` give the exact
//! set of strings the decoder accepts (an optional sign followed by one or
//! more ASCII digits), and the executable functions are proved against those
//! spec functions.

use vstd::prelude::*;
use vstd::string::*;

verus! {

// ---------------------------------------------------------------------------
// Decimal digits: spec level
// ---------------------------------------------------------------------------

pub open spec fn is_digit_char(c: char) -> bool {
    '0' <= c && c <= '9'
}

pub open spec fn digit_val(c: char) -> nat {
    (c as u32 - '0' as u32) as nat
}

pub open spec fn all_digits(s: Seq<char>) -> bool {
    forall|i: int| 0 <= i < s.len() ==> is_digit_char(#[trigger] s[i])
}

/// Value of a digit string, read left to right.
pub open spec fn dec_val(s: Seq<char>) -> nat
    decreases s.len(),
{
    if s.len() == 0 {
        0
    } else {
        dec_val(s.drop_last()) * 10 + digit_val(s.last())
    }
}

/// The strings an unsigned decimal field accepts: an optional leading `+`
/// followed by at least one digit.
pub open spec fn parse_dec(s: Seq<char>) -> Option<nat> {
    let t = if s.len() > 0 && s[0] == '+' {
        s.drop_first()
    } else {
        s
    };
    if t.len() > 0 && all_digits(t) {
        Some(dec_val(t))
    } else {
        None
    }
}

/// The strings a signed decimal field accepts: `parse_dec` extended with a
/// leading `-`.
pub open spec fn parse_signed(s: Seq<char>) -> Option<int> {
    if s.len() > 0 && s[0] == '-' {
        let t = s.drop_first();
        if t.len() > 0 && all_digits(t) {
            Some(-(dec_val(t) as int))
        } else {
            None
        }
    } else {
        match parse_dec(s) {
            Some(v) => Some(v as int),
            None => None,
        }
    }
}

pub open spec fn digit_char(d: nat) -> char {
    if d == 0 {
        '0'
    } else if d == 1 {
        '1'
    } else if d == 2 {
        '2'
    } else if d == 3 {
        '3'
    } else if d == 4 {
        '4'
    } else if d == 5 {
        '5'
    } else if d == 6 {
        '6'
    } else if d == 7 {
        '7'
    } else if d == 8 {
        '8'
    } else {
        '9'
    }
}

/// Canonical decimal rendering of a natural number (no sign, no leading
/// zeros except for zero itself).
pub open spec fn dec_str(n: nat) -> Seq<char>
    decreases n,
{
    if n < 10 {
        seq![digit_char(n)]
    } else {
        dec_str(n / 10).push(digit_char(n % 10))
    }
}

/// Canonical decimal rendering of an integer: a minus sign before the
/// magnitude where it is negative.
pub open spec fn signed_dec_str(v: int) -> Seq<char> {
    if v >= 0 {
        dec_str(v as nat)
    } else {
        seq!['-'] + dec_str((-v) as nat)
    }
}

// ---------------------------------------------------------------------------
// Decimal digits: lemmas
// ---------------------------------------------------------------------------

/// `dec_str` emits digits only, at least one of them, and `dec_val` reads the
/// written number back.
pub proof fn lemma_dec_str_wf(n: nat)
    ensures
        dec_str(n).len() >= 1,
        all_digits(dec_str(n)),
        dec_val(dec_str(n)) == n,
    decreases n,
{
    if n < 10 {
        let s = dec_str(n);
        assert(s == seq![digit_char(n)]);
        assert(is_digit_char(digit_char(n)));
        assert(s.drop_last() =~= Seq::<char>::empty());
        assert(dec_val(Seq::<char>::empty()) == 0);
        assert(dec_val(s) == dec_val(s.drop_last()) * 10 + digit_val(s.last()));
        assert(digit_val(digit_char(n)) == n);
    } else {
        lemma_dec_str_wf(n / 10);
        let s = dec_str(n);
        assert(s == dec_str(n / 10).push(digit_char(n % 10)));
        assert(s.drop_last() =~= dec_str(n / 10));
        assert(s.last() == digit_char(n % 10));
        assert(digit_val(digit_char(n % 10)) == n % 10);
        assert(dec_val(s) == (n / 10) * 10 + n % 10);
        assert((n / 10) * 10 + n % 10 == n) by (nonlinear_arith);
        assert forall|i: int| 0 <= i < s.len() implies is_digit_char(#[trigger] s[i]) by {
            if i < s.len() - 1 {
                assert(s[i] == dec_str(n / 10)[i]);
            } else {
                assert(s[i] == digit_char(n % 10));
            }
        }
    }
}

/// Reading the canonical rendering back succeeds and returns the number.
pub proof fn lemma_parse_dec_str(n: nat)
    ensures
        parse_dec(dec_str(n)) == Some(n),
        parse_signed(dec_str(n)) == Some(n as int),
{
    lemma_dec_str_wf(n);
    let s = dec_str(n);
    assert(is_digit_char(s[0]));
    assert(s[0] != '+');
    assert(s[0] != '-');
}

/// A digit string's value only grows as digits are appended on the right.
proof fn lemma_dec_val_take_le(s: Seq<char>, k: int)
    requires
        0 <= k <= s.len(),
    ensures
        dec_val(s.take(k)) <= dec_val(s),
    decreases s.len(),
{
    if k < s.len() {
        let d = s.drop_last();
        assert(d.take(k) =~= s.take(k));
        lemma_dec_val_take_le(d, k);
        assert(dec_val(d) <= dec_val(d) * 10) by (nonlinear_arith);
        assert(dec_val(s) == dec_val(d) * 10 + digit_val(s.last()));
    } else {
        assert(s.take(k) =~= s);
    }
}

// ---------------------------------------------------------------------------
// Decimal digits: executable functions
// ---------------------------------------------------------------------------

/// One decimal digit as a string slice.
fn digit_slice(d: u64) -> (r: &'static str)
    requires
        d < 10,
    ensures
        r@ =~= seq![digit_char(d as nat)],
{
    proof {
        reveal_strlit("0");
        reveal_strlit("1");
        reveal_strlit("2");
        reveal_strlit("3");
        reveal_strlit("4");
        reveal_strlit("5");
        reveal_strlit("6");
        reveal_strlit("7");
        reveal_strlit("8");
        reveal_strlit("9");
    }
    if d == 0 {
        "0"
    } else if d == 1 {
        "1"
    } else if d == 2 {
        "2"
    } else if d == 3 {
        "3"
    } else if d == 4 {
        "4"
    } else if d == 5 {
        "5"
    } else if d == 6 {
        "6"
    } else if d == 7 {
        "7"
    } else if d == 8 {
        "8"
    } else {
        "9"
    }
}

/// Renders `n` in decimal.
pub fn u64_to_dec(n: u64) -> (r: String)
    ensures
        r@ == dec_str(n as nat),
    decreases n,
{
    if n < 10 {
        String::from_str(digit_slice(n))
    } else {
        let mut s = u64_to_dec(n / 10);
        s.append(digit_slice(n % 10));
        proof {
            assert(s@ =~= dec_str(n as nat));
        }
        s
    }
}

/// Renders a signed number in decimal.
pub fn i64_to_dec(v: i64) -> (r: String)
    ensures
        r@ == signed_dec_str(v as int),
{
    proof {
        reveal_strlit("-");
    }
    if v >= 0 {
        u64_to_dec(v as u64)
    } else {
        // magnitude computed without overflowing at `i64::MIN`
        let m: u64 = (-(v + 1)) as u64 + 1;
        let mut r = String::from_str("-");
        r.append(u64_to_dec(m).as_str());
        proof {
            assert(m as int == -(v as int));
            assert("-"@ =~= seq!['-']);
            assert(r@ =~= seq!['-'] + dec_str((-(v as int)) as nat));
        }
        r
    }
}

/// Parses an unsigned decimal field, rejecting values above `max`.
pub fn parse_dec_field(s: &str, max: u64) -> (r: Option<u64>)
    ensures
        match parse_dec(s@) {
            Some(v) => if v <= max {
                r == Some(v as u64)
            } else {
                r is None
            },
            None => r is None,
        },
{
    let n = s.unicode_len();
    let start: usize = if n > 0 && s.get_char(0) == '+' {
        1
    } else {
        0
    };
    let ghost t = if s@.len() > 0 && s@[0] == '+' {
        s@.drop_first()
    } else {
        s@
    };
    proof {
        assert(t =~= s@.subrange(start as int, n as int));
    }
    if n == start {
        return None;
    }
    let mut acc: u64 = 0;
    let mut i: usize = start;
    while i < n
        invariant
            start <= i <= n,
            n == s@.len(),
            t == (if s@.len() > 0 && s@[0] == '+' {
                s@.drop_first()
            } else {
                s@
            }),
            t == s@.subrange(start as int, n as int),
            t.len() == n - start,
            acc <= max,
            all_digits(t.take(i - start)),
            acc == dec_val(t.take(i - start)),
        decreases n - i,
    {
        let c = s.get_char(i);
        proof {
            assert(t[i - start] == s@[i as int]);
        }
        if !(c >= '0' && c <= '9') {
            proof {
                assert(!is_digit_char(t[i - start]));
                assert(!all_digits(t));
            }
            return None;
        }
        let d: u64 = (c as u64) - 48;
        proof {
            assert(d == digit_val(c));
        }
        if acc > max / 10 || (acc == max / 10 && d > max % 10) {
            proof {
                let pre = t.take(i - start + 1);
                assert(pre.drop_last() =~= t.take(i - start));
                assert(pre.last() == t[i - start]);
                assert(dec_val(pre) == acc * 10 + d);
                assert(max / 10 * 10 + max % 10 == max);
                if acc > max / 10 {
                    assert(acc * 10 >= (max / 10 + 1) * 10) by (nonlinear_arith)
                        requires
                            acc >= max / 10 + 1,
                    ;
                    assert(dec_val(pre) > max);
                } else {
                    assert(dec_val(pre) > max);
                }
                lemma_dec_val_take_le(t, i - start + 1);
                assert(dec_val(t) > max);
            }
            return None;
        }
        proof {
            assert(acc * 10 + d <= max) by (nonlinear_arith)
                requires
                    acc <= max / 10,
                    acc < max / 10 || d <= max % 10,
                    d < 10,
                    max / 10 * 10 + max % 10 == max,
            ;
            let pre = t.take(i - start + 1);
            assert(pre.drop_last() =~= t.take(i - start));
            assert(pre.last() == t[i - start]);
            assert(dec_val(pre) == acc * 10 + d);
        }
        acc = acc * 10 + d;
        i = i + 1;
    }
    proof {
        assert(t.take(n - start) =~= t);
    }
    Some(acc)
}

/// Parses a signed decimal field into the `i32` range.
pub fn parse_i32_field(s: &str) -> (r: Option<i32>)
    ensures
        match parse_signed(s@) {
            Some(v) => if i32::MIN <= v <= i32::MAX {
                r is Some && r->0 as int == v
            } else {
                r is None
            },
            None => r is None,
        },
{
    let n = s.unicode_len();
    if n > 0 && s.get_char(0) == '-' {
        // a sign after the sign is not a digit, so the whole field is refused
        if n > 1 && s.get_char(1) == '+' {
            proof {
                let t = s@.drop_first();
                assert(t[0] == '+');
                assert(!is_digit_char(t[0]));
            }
            return None;
        }
        let rest = s.substring_char(1, n);
        proof {
            assert(rest@ =~= s@.drop_first());
            if rest@.len() > 0 && rest@[0] == '+' {
                assert(s@[1] == '+');
                assert(false);
            }
        }
        match parse_dec_field(rest, 2147483648u64) {
            Some(v) => {
                if v == 2147483648u64 {
                    Some(i32::MIN)
                } else {
                    Some(-(v as i32))
                }
            },
            None => None,
        }
    } else {
        match parse_dec_field(s, 2147483647u64) {
            Some(v) => Some(v as i32),
            None => None,
        }
    }
}

// ---------------------------------------------------------------------------
// Semicolon-separated field lists: spec level
// ---------------------------------------------------------------------------

/// The views of a list of field strings.
pub open spec fn views(fields: Seq<String>) -> Seq<Seq<char>> {
    fields.map_values(|f: String| f@)
}

/// The fields of a semicolon-separated record, in order.  An empty record is
/// one empty field; every separator opens a further field.
pub open spec fn split_semi(s: Seq<char>) -> Seq<Seq<char>>
    decreases s.len(),
{
    if s.len() == 0 {
        seq![Seq::<char>::empty()]
    } else if s[0] == ';' {
        seq![Seq::<char>::empty()] + split_semi(s.drop_first())
    } else {
        let rest = split_semi(s.drop_first());
        seq![seq![s[0]] + rest[0]] + rest.drop_first()
    }
}

/// Fields joined with `;` between them.
pub open spec fn join_semi(fs: Seq<Seq<char>>) -> Seq<char>
    decreases fs.len(),
{
    if fs.len() == 0 {
        Seq::empty()
    } else if fs.len() == 1 {
        fs[0]
    } else {
        fs[0] + seq![';'] + join_semi(fs.drop_first())
    }
}

pub open spec fn no_semi(s: Seq<char>) -> bool {
    forall|i: int| 0 <= i < s.len() ==> #[trigger] s[i] != ';'
}

pub open spec fn all_no_semi(fs: Seq<Seq<char>>) -> bool {
    forall|i: int| 0 <= i < fs.len() ==> no_semi(#[trigger] fs[i])
}

// ---------------------------------------------------------------------------
// Semicolon-separated field lists: lemmas
// ---------------------------------------------------------------------------

pub proof fn lemma_split_len(s: Seq<char>)
    ensures
        split_semi(s).len() >= 1,
    decreases s.len(),
{
    if s.len() > 0 {
        lemma_split_len(s.drop_first());
    }
}

/// A separator-free text is one whole field.
pub proof fn lemma_split_whole(a: Seq<char>)
    requires
        no_semi(a),
    ensures
        split_semi(a) == seq![a],
    decreases a.len(),
{
    if a.len() == 0 {
        assert(split_semi(a) =~~= seq![a]);
    } else {
        assert(a[0] != ';');
        lemma_split_whole(a.drop_first());
        let rest = split_semi(a.drop_first());
        assert(rest == seq![a.drop_first()]);
        assert(rest.drop_first() =~= Seq::<Seq<char>>::empty());
        assert(seq![a[0]] + a.drop_first() =~= a);
        assert(split_semi(a) =~~= seq![a]);
    }
}

/// Splitting starts over after the first separator.
pub proof fn lemma_split_concat(a: Seq<char>, rest: Seq<char>)
    requires
        no_semi(a),
    ensures
        split_semi(a + seq![';'] + rest) == seq![a] + split_semi(rest),
    decreases a.len(),
{
    let s = a + seq![';'] + rest;
    if a.len() == 0 {
        assert(s[0] == ';');
        assert(s.drop_first() =~= rest);
        assert(split_semi(s) =~~= seq![a] + split_semi(rest));
    } else {
        assert(s[0] == a[0]);
        assert(a[0] != ';');
        assert(s.drop_first() =~= a.drop_first() + seq![';'] + rest);
        lemma_split_concat(a.drop_first(), rest);
        let r = split_semi(s.drop_first());
        assert(r == seq![a.drop_first()] + split_semi(rest));
        lemma_split_len(rest);
        assert(r[0] == a.drop_first());
        assert(seq![s[0]] + r[0] =~= a);
        assert(r.drop_first() =~= split_semi(rest));
        assert(split_semi(s) =~~= seq![a] + split_semi(rest));
    }
}

/// Splitting undoes joining, as long as no field holds a separator.
pub proof fn lemma_split_join(fs: Seq<Seq<char>>)
    requires
        fs.len() >= 1,
        all_no_semi(fs),
    ensures
        split_semi(join_semi(fs)) == fs,
    decreases fs.len(),
{
    if fs.len() == 1 {
        assert(join_semi(fs) == fs[0]);
        assert(no_semi(fs[0]));
        lemma_split_whole(fs[0]);
        assert(split_semi(join_semi(fs)) =~= fs);
    } else {
        assert(no_semi(fs[0]));
        lemma_split_concat(fs[0], join_semi(fs.drop_first()));
        assert(all_no_semi(fs.drop_first())) by {
            assert(forall|i: int|
                0 <= i < fs.drop_first().len() ==> #[trigger] fs.drop_first()[i] == fs[i + 1]);
        }
        lemma_split_join(fs.drop_first());
        assert(split_semi(join_semi(fs)) =~= fs);
    }
}

/// Joining one more field appends a separator and the field.
proof fn lemma_join_push(fs: Seq<Seq<char>>, f: Seq<char>)
    requires
        fs.len() >= 1,
    ensures
        join_semi(fs.push(f)) == join_semi(fs) + seq![';'] + f,
    decreases fs.len(),
{
    if fs.len() == 1 {
        let p = fs.push(f);
        assert(p.len() == 2);
        assert(p.drop_first() =~= seq![f]);
        assert(join_semi(p.drop_first()) == f);
        assert(join_semi(p) =~= fs[0] + seq![';'] + f);
    } else {
        let p = fs.push(f);
        assert(p[0] == fs[0]);
        assert(p.drop_first() =~= fs.drop_first().push(f));
        lemma_join_push(fs.drop_first(), f);
        assert(join_semi(p) =~= join_semi(fs) + seq![';'] + f);
    }
}

// ---------------------------------------------------------------------------
// Semicolon-separated field lists: executable functions
// ---------------------------------------------------------------------------

/// Joins the fields with `;` between them.
pub fn join_fields(v: &Vec<String>) -> (r: String)
    ensures
        r@ == join_semi(views(v@)),
{
    proof {
        reveal_strlit(";");
    }
    let mut r = String::new();
    if v.len() == 0 {
        proof {
            assert(views(v@) =~= Seq::<Seq<char>>::empty());
        }
        return r;
    }
    r.append(v[0].as_str());
    proof {
        assert(views(v@.take(1)) =~= seq![v@[0]@]);
        assert(join_semi(views(v@.take(1))) == v@[0]@);
    }
    let mut i: usize = 1;
    while i < v.len()
        invariant
            1 <= i <= v@.len(),
            r@ == join_semi(views(v@.take(i as int))),
            ";"@ == seq![';'],
        decreases v@.len() - i,
    {
        r.append(";");
        r.append(v[i].as_str());
        proof {
            let fs = views(v@.take(i as int));
            assert(fs.len() == i >= 1);
            lemma_join_push(fs, v@[i as int]@);
            assert(views(v@.take(i + 1)) =~= fs.push(v@[i as int]@));
        }
        i = i + 1;
    }
    proof {
        assert(v@.take(v@.len() as int) =~= v@);
    }
    r
}

/// Character-for-character string comparison.
pub fn str_eq(a: &str, b: &str) -> (r: bool)
    ensures
        r == (a@ == b@),
{
    let n = a.unicode_len();
    if n != b.unicode_len() {
        return false;
    }
    let mut i: usize = 0;
    while i < n
        invariant
            0 <= i <= n,
            n == a@.len(),
            n == b@.len(),
            forall|k: int| 0 <= k < i ==> a@[k] == b@[k],
        decreases n - i,
    {
        if a.get_char(i) != b.get_char(i) {
            return false;
        }
        i = i + 1;
    }
    proof {
        assert(a@ =~= b@);
    }
    true
}

/// Splits the text at every `;` into its fields.
pub fn split_fields(s: &str) -> (r: Vec<String>)
    ensures
        views(r@) == split_semi(s@),
{
    let n = s.unicode_len();
    let mut r: Vec<String> = Vec::new();
    proof {
        assert(views(r@) =~= Seq::<Seq<char>>::empty());
        assert(s@.subrange(0, n as int) =~= s@);
        assert(views(r@) + split_semi(s@) =~= split_semi(s@));
    }
    let mut start: usize = 0;
    let mut i: usize = 0;
    while i < n
        invariant
            0 <= start <= i <= n,
            n == s@.len(),
            no_semi(s@.subrange(start as int, i as int)),
            views(r@) + split_semi(s@.subrange(start as int, n as int)) == split_semi(s@),
        decreases n - i,
    {
        let c = s.get_char(i);
        if c == ';' {
            let field = s.substring_char(start, i).to_owned();
            proof {
                let a = s@.subrange(start as int, i as int);
                let tail = s@.subrange(i + 1, n as int);
                assert(s@.subrange(start as int, n as int) =~= a + seq![';'] + tail);
                lemma_split_concat(a, tail);
                assert(field@ == a);
                assert(views(r@.push(field)) =~= views(r@).push(a));
                assert(views(r@).push(a) + split_semi(tail) =~= views(r@) + (seq![a]
                    + split_semi(tail)));
            }
            r.push(field);
            start = i + 1;
            proof {
                assert(no_semi(s@.subrange(start as int, start as int)));
            }
        } else {
            proof {
                assert(s@.subrange(start as int, i + 1) =~= s@.subrange(start as int, i as int)
                    + seq![s@[i as int]]);
            }
        }
        i = i + 1;
    }
    let field = s.substring_char(start, n).to_owned();
    proof {
        let a = s@.subrange(start as int, n as int);
        lemma_split_whole(a);
        assert(field@ == a);
        assert(views(r@.push(field)) =~= views(r@).push(a));
        assert(views(r@).push(a) =~= views(r@) + seq![a]);
    }
    r.push(field);
    r
}

} // verus!
