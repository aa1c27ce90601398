//! The order in which ports are listed: by the number in their name where
//! both names hold one ("COM3" before "COM10"), else by the names themselves.

use vstd::prelude::*;
use vstd::string::*;

verus! {

/// An ASCII decimal digit.
pub open spec fn is_digit(c: char) -> bool {
    '0' <= c && c <= '9'
}

/// The ASCII digits of `s`, in order.
pub open spec fn digits_of(s: Seq<char>) -> Seq<char>
    decreases s.len(),
{
    if s.len() == 0 {
        Seq::empty()
    } else if is_digit(s.last()) {
        digits_of(s.drop_last()).push(s.last())
    } else {
        digits_of(s.drop_last())
    }
}

/// The value of a string of decimal digits.
pub open spec fn digits_value(d: Seq<char>) -> nat
    decreases d.len(),
{
    if d.len() == 0 {
        0
    } else {
        digits_value(d.drop_last()) * 10 + ((d.last() as nat) - 48) as nat
    }
}

/// The number in a port's name: its digits read as a `u32`, or `None` where
/// the name has no digit or the number does not fit in a `u32`.
pub open spec fn port_number(name: Seq<char>) -> Option<u32> {
    let d = digits_of(name);
    if d.len() == 0 || digits_value(d) > u32::MAX {
        None
    } else {
        Some(digits_value(d) as u32)
    }
}

/// `a` comes strictly before `b` in lexicographic order of code points (the
/// byte order of their UTF-8 encodings).
pub open spec fn text_before(a: Seq<char>, b: Seq<char>) -> bool
    decreases a.len(),
{
    if a.len() == 0 {
        b.len() > 0
    } else if b.len() == 0 {
        false
    } else if a[0] != b[0] {
        a[0] < b[0]
    } else {
        text_before(a.drop_first(), b.drop_first())
    }
}

/// The port named `a` is listed strictly before the port named `b`.
pub open spec fn port_before(a: Seq<char>, b: Seq<char>) -> bool {
    match (port_number(a), port_number(b)) {
        (Some(x), Some(y)) => x < y,
        _ => text_before(a, b),
    }
}

/// Text order is asymmetric.
pub proof fn lemma_text_before_asymmetric(a: Seq<char>, b: Seq<char>)
    ensures
        text_before(a, b) ==> !text_before(b, a),
    decreases a.len(),
{
    if a.len() > 0 && b.len() > 0 && a[0] == b[0] {
        lemma_text_before_asymmetric(a.drop_first(), b.drop_first());
    }
}

/// Text order is transitive.
pub proof fn lemma_text_before_transitive(a: Seq<char>, b: Seq<char>, c: Seq<char>)
    requires
        text_before(a, b),
        text_before(b, c),
    ensures
        text_before(a, c),
    decreases a.len(),
{
    if a.len() > 0 && b.len() > 0 && c.len() > 0 && a[0] == b[0] && b[0] == c[0] {
        lemma_text_before_transitive(a.drop_first(), b.drop_first(), c.drop_first());
    }
}

/// Of two different texts, one comes before the other.
pub proof fn lemma_text_before_total(a: Seq<char>, b: Seq<char>)
    requires
        a != b,
    ensures
        text_before(a, b) || text_before(b, a),
    decreases a.len(),
{
    if a.len() == 0 {
        assert(b.len() > 0) by {
            if b.len() == 0 {
                assert(a =~= b);
            }
        }
    } else if b.len() > 0 && a[0] == b[0] {
        if a.drop_first() == b.drop_first() {
            assert(a.len() == a.drop_first().len() + 1);
            assert(b.len() == b.drop_first().len() + 1);
            assert(a =~= b) by {
                assert forall|i: int| 0 <= i < a.len() implies a[i] == b[i] by {
                    if i > 0 {
                        assert(a[i] == a.drop_first()[i - 1]);
                        assert(b[i] == b.drop_first()[i - 1]);
                    }
                }
            }
        }
        lemma_text_before_total(a.drop_first(), b.drop_first());
    } else if b.len() > 0 {
        assert(a[0] != b[0]);
    }
}

/// No text comes before itself.
pub proof fn lemma_text_before_irreflexive(a: Seq<char>)
    ensures
        !text_before(a, a),
    decreases a.len(),
{
    if a.len() > 0 {
        lemma_text_before_irreflexive(a.drop_first());
    }
}

/// Port order is asymmetric: no two ports are each listed before the other.
pub proof fn lemma_port_before_asymmetric(a: Seq<char>, b: Seq<char>)
    ensures
        port_before(a, b) ==> !port_before(b, a),
{
    lemma_text_before_asymmetric(a, b);
}

proof fn lemma_digits_value_grows(d: Seq<char>, c: char)
    requires
        is_digit(c),
    ensures
        digits_value(d.push(c)) >= digits_value(d),
        digits_value(d.push(c)) == digits_value(d) * 10 + ((c as nat) - 48) as nat,
{
    assert(d.push(c).drop_last() =~= d);
}

/// The number in a port's name, as `port_number` describes it.
pub fn port_number_of(name: &str) -> (r: Option<u32>)
    ensures
        r == port_number(name@),
{
    let n = name.unicode_len();
    let mut seen: bool = false;
    // The value read so far, held at 2^32 once it no longer fits in a u32.
    let mut acc: u64 = 0;
    let mut i: usize = 0;
    assert(name@.take(0) =~= Seq::<char>::empty());
    while i < n
        invariant
            n == name@.len(),
            i <= n,
            seen == (digits_of(name@.take(i as int)).len() > 0),
            acc <= 0x1_0000_0000,
            acc == if digits_value(digits_of(name@.take(i as int))) > u32::MAX {
                0x1_0000_0000
            } else {
                digits_value(digits_of(name@.take(i as int)))
            },
        decreases n - i,
    {
        let c = name.get_char(i);
        let ghost pre = name@.take(i as int);
        assert(name@.take(i + 1) =~= pre.push(c));
        assert(name@.take(i + 1).drop_last() =~= pre);
        if '0' <= c && c <= '9' {
            proof {
                lemma_digits_value_grows(digits_of(pre), c);
            }
            seen = true;
            if acc <= u32::MAX as u64 {
                let next: u64 = acc * 10 + ((c as u32) - 48) as u64;
                if next > u32::MAX as u64 {
                    acc = 0x1_0000_0000;
                } else {
                    acc = next;
                }
            }
        }
        i = i + 1;
    }
    assert(name@.take(n as int) =~= name@);
    if !seen || acc > u32::MAX as u64 {
        None
    } else {
        Some(acc as u32)
    }
}

/// Whether `a` comes strictly before `b` in lexicographic order of code points.
pub fn text_before_exec(a: &str, b: &str) -> (r: bool)
    ensures
        r == text_before(a@, b@),
{
    let n = a.unicode_len();
    let m = b.unicode_len();
    let mut i: usize = 0;
    assert(a@.skip(0) =~= a@);
    assert(b@.skip(0) =~= b@);
    while i < n && i < m
        invariant
            n == a@.len(),
            m == b@.len(),
            i <= n,
            i <= m,
            text_before(a@, b@) == text_before(a@.skip(i as int), b@.skip(i as int)),
        decreases n - i,
    {
        let x = a.get_char(i);
        let y = b.get_char(i);
        assert(a@.skip(i as int)[0] == x);
        assert(b@.skip(i as int)[0] == y);
        if x != y {
            return x < y;
        }
        assert(a@.skip(i as int).drop_first() =~= a@.skip(i + 1));
        assert(b@.skip(i as int).drop_first() =~= b@.skip(i + 1));
        i = i + 1;
    }
    i == n && i < m
}

/// Whether the port named `a` is listed strictly before the port named `b`.
pub fn port_before_exec(a: &str, b: &str) -> (r: bool)
    ensures
        r == port_before(a@, b@),
{
    match (port_number_of(a), port_number_of(b)) {
        (Some(x), Some(y)) => x < y,
        _ => text_before_exec(a, b),
    }
}

} // verus!
