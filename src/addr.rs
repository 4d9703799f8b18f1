//! Dotted-decimal IPv4 address text.

use vstd::prelude::*;

verus! {

/// A decimal digit character.
pub open spec fn is_digit(c: char) -> bool {
    '0' <= c && c <= '9'
}

/// The numeric value of a run of decimal digits, most significant first.
pub open spec fn digits_value(t: Seq<char>) -> nat
    decreases t.len(),
{
    if t.len() == 0 {
        0
    } else {
        digits_value(t.drop_last()) * 10 + ((t.last() as int) - ('0' as int)) as nat
    }
}

/// `t` is the canonical decimal text of the octet `n`: one to three digits,
/// no leading zero unless the octet is written as a lone `0`, value below 256.
pub open spec fn is_octet_text(t: Seq<char>, n: nat) -> bool {
    &&& 1 <= t.len() <= 3
    &&& forall|i: int| 0 <= i < t.len() ==> is_digit(#[trigger] t[i])
    &&& (t.len() > 1 ==> t[0] != '0')
    &&& digits_value(t) == n
    &&& n < 256
}

/// The 32-bit address whose four octets, most significant first, are `o0..o3`.
pub open spec fn quad(o0: nat, o1: nat, o2: nat, o3: nat) -> nat {
    o0 * 16777216 + o1 * 65536 + o2 * 256 + o3
}

/// `s` is the dotted-decimal text of the address `a`, with the dots at `i`, `j`, `k`.
pub open spec fn is_ipv4_text_at(s: Seq<char>, a: u32, i: int, j: int, k: int) -> bool {
    &&& 0 < i < j < k < s.len()
    &&& s[i] == '.' && s[j] == '.' && s[k] == '.'
    &&& exists|o0: nat, o1: nat, o2: nat, o3: nat|
        {
            &&& is_octet_text(s.subrange(0, i), o0)
            &&& is_octet_text(s.subrange(i + 1, j), o1)
            &&& is_octet_text(s.subrange(j + 1, k), o2)
            &&& is_octet_text(s.subrange(k + 1, s.len() as int), o3)
            &&& a as nat == #[trigger] quad(o0, o1, o2, o3)
        }
}

/// `s` is the dotted-decimal text of the IPv4 address `a` (four canonical
/// decimal octets separated by dots, nothing else).
pub open spec fn is_ipv4_text(s: Seq<char>, a: u32) -> bool {
    exists|i: int, j: int, k: int| is_ipv4_text_at(s, a, i, j, k)
}

/// Longest dotted-decimal address text: `255.255.255.255`.
pub const MAX_IPV4_TEXT: usize = 15;

proof fn lemma_octet_unique(t: Seq<char>, n: nat, m: nat)
    requires
        is_octet_text(t, n),
        is_octet_text(t, m),
    ensures
        n == m,
{
}

proof fn lemma_text_dots(s: Seq<char>, a: u32, i: int, j: int, k: int, b: u32, i2: int, j2: int, k2: int)
    requires
        is_ipv4_text_at(s, a, i, j, k),
        is_ipv4_text_at(s, b, i2, j2, k2),
    ensures
        i == i2,
        j == j2,
        k == k2,
{
    let (o0, o1, o2, o3) = choose|o0: nat, o1: nat, o2: nat, o3: nat|
        {
            &&& is_octet_text(s.subrange(0, i), o0)
            &&& is_octet_text(s.subrange(i + 1, j), o1)
            &&& is_octet_text(s.subrange(j + 1, k), o2)
            &&& is_octet_text(s.subrange(k + 1, s.len() as int), o3)
            &&& a as nat == #[trigger] quad(o0, o1, o2, o3)
        };
    let (p0, p1, p2, p3) = choose|o0: nat, o1: nat, o2: nat, o3: nat|
        {
            &&& is_octet_text(s.subrange(0, i2), o0)
            &&& is_octet_text(s.subrange(i2 + 1, j2), o1)
            &&& is_octet_text(s.subrange(j2 + 1, k2), o2)
            &&& is_octet_text(s.subrange(k2 + 1, s.len() as int), o3)
            &&& b as nat == #[trigger] quad(o0, o1, o2, o3)
        };
    if i < i2 {
        assert(is_digit(s.subrange(0, i2)[i]));
    }
    if i2 < i {
        assert(is_digit(s.subrange(0, i)[i2]));
    }
    if j < j2 {
        assert(is_digit(s.subrange(i + 1, j2)[j - i - 1]));
    }
    if j2 < j {
        assert(is_digit(s.subrange(i + 1, j)[j2 - i - 1]));
    }
    if k < k2 {
        assert(is_digit(s.subrange(j + 1, k2)[k - j - 1]));
    }
    if k2 < k {
        assert(is_digit(s.subrange(j + 1, k)[k2 - j - 1]));
    }
}

/// A text names at most one address.
pub proof fn lemma_ipv4_text_unique(s: Seq<char>, a: u32, b: u32)
    requires
        is_ipv4_text(s, a),
        is_ipv4_text(s, b),
    ensures
        a == b,
{
    let (i, j, k) = choose|i: int, j: int, k: int| is_ipv4_text_at(s, a, i, j, k);
    let (i2, j2, k2) = choose|i: int, j: int, k: int| is_ipv4_text_at(s, b, i, j, k);
    lemma_text_dots(s, a, i, j, k, b, i2, j2, k2);
    let (o0, o1, o2, o3) = choose|o0: nat, o1: nat, o2: nat, o3: nat|
        {
            &&& is_octet_text(s.subrange(0, i), o0)
            &&& is_octet_text(s.subrange(i + 1, j), o1)
            &&& is_octet_text(s.subrange(j + 1, k), o2)
            &&& is_octet_text(s.subrange(k + 1, s.len() as int), o3)
            &&& a as nat == #[trigger] quad(o0, o1, o2, o3)
        };
    let (p0, p1, p2, p3) = choose|o0: nat, o1: nat, o2: nat, o3: nat|
        {
            &&& is_octet_text(s.subrange(0, i), o0)
            &&& is_octet_text(s.subrange(i + 1, j), o1)
            &&& is_octet_text(s.subrange(j + 1, k), o2)
            &&& is_octet_text(s.subrange(k + 1, s.len() as int), o3)
            &&& b as nat == #[trigger] quad(o0, o1, o2, o3)
        };
    lemma_octet_unique(s.subrange(0, i), o0, p0);
    lemma_octet_unique(s.subrange(i + 1, j), o1, p1);
    lemma_octet_unique(s.subrange(j + 1, k), o2, p2);
    lemma_octet_unique(s.subrange(k + 1, s.len() as int), o3, p3);
}


proof fn lemma_dots_of_text(s: Seq<char>, a: u32, i: int, j: int, k: int)
    requires
        is_ipv4_text_at(s, a, i, j, k),
    ensures
        forall|x: int| 0 <= x < i ==> s[x] != '.',
        forall|x: int| i < x < j ==> s[x] != '.',
        forall|x: int| j < x < k ==> s[x] != '.',
        forall|x: int| k < x < s.len() ==> s[x] != '.',
        s.len() <= MAX_IPV4_TEXT,
{
    let (o0, o1, o2, o3) = choose|o0: nat, o1: nat, o2: nat, o3: nat|
        {
            &&& is_octet_text(s.subrange(0, i), o0)
            &&& is_octet_text(s.subrange(i + 1, j), o1)
            &&& is_octet_text(s.subrange(j + 1, k), o2)
            &&& is_octet_text(s.subrange(k + 1, s.len() as int), o3)
            &&& a as nat == #[trigger] quad(o0, o1, o2, o3)
        };
    assert forall|x: int| 0 <= x < i implies s[x] != '.' by {
        assert(is_digit(s.subrange(0, i)[x]));
    }
    assert forall|x: int| i < x < j implies s[x] != '.' by {
        assert(is_digit(s.subrange(i + 1, j)[x - i - 1]));
    }
    assert forall|x: int| j < x < k implies s[x] != '.' by {
        assert(is_digit(s.subrange(j + 1, k)[x - j - 1]));
    }
    assert forall|x: int| k < x < s.len() implies s[x] != '.' by {
        assert(is_digit(s.subrange(k + 1, s.len() as int)[x - k - 1]));
    }
}

/// Reads the octet written in `cs[lo..hi]`.
fn parse_octet(cs: &Vec<char>, lo: usize, hi: usize) -> (r: Option<u8>)
    requires
        lo <= hi <= cs.len(),
    ensures
        match r {
            Some(v) => is_octet_text(cs@.subrange(lo as int, hi as int), v as nat),
            None => forall|n: nat| !is_octet_text(cs@.subrange(lo as int, hi as int), n),
        },
{
    let ghost t = cs@.subrange(lo as int, hi as int);
    if hi - lo < 1 || hi - lo > 3 {
        return None;
    }
    let mut v: u32 = 0;
    let mut p: usize = lo;
    while p < hi
        invariant
            lo <= p <= hi <= cs.len(),
            hi - lo <= 3,
            t == cs@.subrange(lo as int, hi as int),
            v == digits_value(cs@.subrange(lo as int, p as int)),
            forall|x: int| lo <= x < p ==> is_digit(#[trigger] cs@[x]),
            p - lo == 0 ==> v == 0,
            p - lo == 1 ==> v < 10,
            p - lo == 2 ==> v < 100,
            v < 1000,
        decreases hi - p,
    {
        let c = cs[p];
        if !('0' <= c && c <= '9') {
            proof {
                assert(!is_digit(t[p - lo]));
            }
            return None;
        }
        proof {
            assert(cs@.subrange(lo as int, p + 1).drop_last() =~= cs@.subrange(lo as int, p as int));
        }
        v = v * 10 + (c as u32 - 48);
        p = p + 1;
    }
    assert(cs@.subrange(lo as int, p as int) =~= t);
    if hi - lo > 1 && cs[lo] == '0' {
        proof {
            assert(t[0] == '0');
        }
        return None;
    }
    if v > 255 {
        return None;
    }
    Some(v as u8)
}

/// Position of the first dot in `cs[from..]`, if any.
fn find_dot(cs: &Vec<char>, from: usize) -> (r: Option<usize>)
    requires
        from <= cs.len(),
    ensures
        match r {
            Some(d) => from <= d < cs.len() && cs@[d as int] == '.' && forall|x: int|
                from <= x < d ==> cs@[x] != '.',
            None => forall|x: int| from <= x < cs.len() ==> cs@[x] != '.',
        },
{
    let mut p: usize = from;
    while p < cs.len()
        invariant
            from <= p <= cs.len(),
            forall|x: int| from <= x < p ==> cs@[x] != '.',
        decreases cs.len() - p,
    {
        if cs[p] == '.' {
            return Some(p);
        }
        p = p + 1;
    }
    None
}

/// Reads a dotted-decimal IPv4 address such as `10.40.1.5`.
///
/// Returns the address exactly when the text is four canonical decimal
/// octets separated by dots; anything else gives `None`.
pub fn parse_ipv4(s: &str) -> (r: Option<u32>)
    ensures
        match r {
            Some(a) => is_ipv4_text(s@, a),
            None => forall|a: u32| !is_ipv4_text(s@, a),
        },
{
    let n = s.unicode_len();
    if n > MAX_IPV4_TEXT {
        proof {
            assert forall|a: u32| !is_ipv4_text(s@, a) by {
                if is_ipv4_text(s@, a) {
                    let (i, j, k) = choose|i: int, j: int, k: int| is_ipv4_text_at(s@, a, i, j, k);
                    lemma_dots_of_text(s@, a, i, j, k);
                }
            }
        }
        return None;
    }
    let mut cs: Vec<char> = Vec::new();
    let mut p: usize = 0;
    while p < n
        invariant
            p <= n,
            n == s@.len(),
            cs@ == s@.subrange(0, p as int),
        decreases n - p,
    {
        cs.push(s.get_char(p));
        p = p + 1;
        assert(cs@ =~= s@.subrange(0, p as int));
    }
    assert(cs@ =~= s@);
    let ghost t = s@;
    let i = match find_dot(&cs, 0) {
        Some(i) => i,
        None => {
            proof {
                assert forall|a: u32| !is_ipv4_text(t, a) by {
                    if is_ipv4_text(t, a) {
                        let (i, j, k) = choose|i: int, j: int, k: int| is_ipv4_text_at(t, a, i, j, k);
                        lemma_dots_of_text(t, a, i, j, k);
                    }
                }
            }
            return None;
        },
    };
    let j = match find_dot(&cs, i + 1) {
        Some(j) => j,
        None => {
            proof {
                assert forall|a: u32| !is_ipv4_text(t, a) by {
                    if is_ipv4_text(t, a) {
                        let (i2, j, k) = choose|i: int, j: int, k: int| is_ipv4_text_at(t, a, i, j, k);
                        lemma_dots_of_text(t, a, i2, j, k);
                        assert(i2 == i);
                    }
                }
            }
            return None;
        },
    };
    let k = match find_dot(&cs, j + 1) {
        Some(k) => k,
        None => {
            proof {
                assert forall|a: u32| !is_ipv4_text(t, a) by {
                    if is_ipv4_text(t, a) {
                        let (i2, j2, k) = choose|i: int, j: int, k: int| is_ipv4_text_at(t, a, i, j, k);
                        lemma_dots_of_text(t, a, i2, j2, k);
                        assert(i2 == i);
                        assert(j2 == j);
                    }
                }
            }
            return None;
        },
    };
    proof {
        assert forall|a: u32, i2: int, j2: int, k2: int| is_ipv4_text_at(t, a, i2, j2, k2) implies i2
            == i && j2 == j && k2 == k by {
            lemma_dots_of_text(t, a, i2, j2, k2);
            assert(i2 == i);
            assert(j2 == j);
        }
    }
    let o0 = parse_octet(&cs, 0, i);
    let o1 = parse_octet(&cs, i + 1, j);
    let o2 = parse_octet(&cs, j + 1, k);
    let o3 = parse_octet(&cs, k + 1, n);
    match (o0, o1, o2, o3) {
        (Some(o0), Some(o1), Some(o2), Some(o3)) => {
            let a: u32 = o0 as u32 * 16777216 + o1 as u32 * 65536 + o2 as u32 * 256 + o3 as u32;
            proof {
                assert(a as nat == quad(o0 as nat, o1 as nat, o2 as nat, o3 as nat));
                assert(is_ipv4_text_at(t, a, i as int, j as int, k as int));
            }
            Some(a)
        },
        _ => {
            proof {
                assert forall|a: u32| !is_ipv4_text(t, a) by {
                    if is_ipv4_text(t, a) {
                        let (i2, j2, k2) = choose|i: int, j: int, k: int| is_ipv4_text_at(t, a, i, j, k);
                        assert(i2 == i && j2 == j && k2 == k);
                    }
                }
            }
            None
        },
    }
}

} // verus!
