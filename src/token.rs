//! Small byte-string helpers shared by the decoder and the subject index.

use vstd::prelude::*;

verus! {

/// Compares two byte strings.
pub fn same_bytes(a: &[u8], b: &[u8]) -> (r: bool)
    ensures
        r == (a@ == b@),
{
    if a.len() != b.len() {
        return false;
    }
    let mut i: usize = 0;
    while i < a.len()
        invariant
            a@.len() == b@.len(),
            0 <= i <= a@.len(),
            forall|j: int| 0 <= j < i ==> a@[j] == b@[j],
        decreases a@.len() - i,
    {
        if a[i] != b[i] {
            return false;
        }
        i = i + 1;
    }
    assert(a@ =~= b@);
    true
}

/// Space, tab, LF, vertical tab, form feed and CR separate the words of a
/// line.
pub open spec fn is_ws(c: u8) -> bool {
    c == 0x20 || c == 0x09 || c == 0x0a || c == 0x0b || c == 0x0c || c == 0x0d
}

/// A byte that may stand in a subject, a sid or a number: printable ASCII
/// other than space.
pub open spec fn is_token_byte(c: u8) -> bool {
    0x21 <= c <= 0x7e
}

/// A non-empty run of printable ASCII bytes without space.
pub open spec fn is_token(w: Seq<u8>) -> bool {
    w.len() > 0 && forall|i: int| 0 <= i < w.len() ==> is_token_byte(#[trigger] w[i])
}

/// Every word of `ws` is a token.
pub open spec fn all_tokens(ws: Seq<Seq<u8>>) -> bool {
    forall|i: int| 0 <= i < ws.len() ==> is_token(#[trigger] ws[i])
}

/// Whether every word of `ws` is a token.
pub fn all_printable(ws: &Vec<Vec<u8>>) -> (r: bool)
    ensures
        r == (forall|i: int| 0 <= i < ws@.len() ==> is_token(#[trigger] ws@[i]@)),
{
    let mut i: usize = 0;
    while i < ws.len()
        invariant
            0 <= i <= ws@.len(),
            forall|k: int| 0 <= k < i ==> is_token(#[trigger] ws@[k]@),
        decreases ws@.len() - i,
    {
        let w = ws[i].as_slice();
        if w.len() == 0 {
            proof {
                assert(!is_token(ws@[i as int]@));
            }
            return false;
        }
        let mut j: usize = 0;
        while j < w.len()
            invariant
                0 <= j <= w@.len(),
                i < ws@.len(),
                w@ == ws@[i as int]@,
                forall|k: int| 0 <= k < j ==> is_token_byte(#[trigger] w@[k]),
            decreases w@.len() - j,
        {
            if w[j] < 0x21 || w[j] > 0x7e {
                proof {
                    assert(!is_token(ws@[i as int]@));
                }
                return false;
            }
            j = j + 1;
        }
        i = i + 1;
    }
    true
}

/// The words seen so far in `s`, and the word still being read at its end.
pub open spec fn scan_words(s: Seq<u8>) -> (Seq<Seq<u8>>, Seq<u8>)
    decreases s.len(),
{
    if s.len() == 0 {
        (Seq::empty(), Seq::empty())
    } else {
        let (done, cur) = scan_words(s.drop_last());
        if is_ws(s.last()) {
            if cur.len() > 0 {
                (done.push(cur), Seq::empty())
            } else {
                (done, cur)
            }
        } else {
            (done, cur.push(s.last()))
        }
    }
}

/// The maximal runs of non-whitespace bytes of `s`, in order.
pub open spec fn words(s: Seq<u8>) -> Seq<Seq<u8>> {
    let (done, cur) = scan_words(s);
    if cur.len() > 0 {
        done.push(cur)
    } else {
        done
    }
}

/// Splits `s` into its words.
pub fn split_words(s: &[u8]) -> (r: Vec<Vec<u8>>)
    ensures
        r@.len() == words(s@).len(),
        forall|i: int| 0 <= i < r@.len() ==> (#[trigger] r@[i])@ == words(s@)[i],
{
    let mut done: Vec<Vec<u8>> = Vec::new();
    let mut cur: Vec<u8> = Vec::new();
    let mut i: usize = 0;
    while i < s.len()
        invariant
            0 <= i <= s@.len(),
            done@.len() == scan_words(s@.subrange(0, i as int)).0.len(),
            forall|j: int|
                0 <= j < done@.len() ==> (#[trigger] done@[j])@ == scan_words(
                    s@.subrange(0, i as int),
                ).0[j],
            cur@ == scan_words(s@.subrange(0, i as int)).1,
        decreases s@.len() - i,
    {
        let ghost prefix = s@.subrange(0, i as int + 1);
        proof {
            assert(prefix.drop_last() =~= s@.subrange(0, i as int));
            assert(prefix.last() == s@[i as int]);
        }
        let c = s[i];
        if c == 0x20 || c == 0x09 || c == 0x0a || c == 0x0b || c == 0x0c || c == 0x0d {
            if cur.len() > 0 {
                done.push(cur);
                cur = Vec::new();
            }
        } else {
            cur.push(c);
        }
        i = i + 1;
    }
    proof {
        assert(s@.subrange(0, s@.len() as int) =~= s@);
    }
    if cur.len() > 0 {
        done.push(cur);
    }
    done
}

/// The number written by the decimal digits `s`.
pub open spec fn digits_value(s: Seq<u8>) -> nat
    decreases s.len(),
{
    if s.len() == 0 {
        0
    } else {
        digits_value(s.drop_last()) * 10 + (s.last() - 0x30) as nat
    }
}

/// `s` is a non-empty run of decimal digits.
pub open spec fn is_digits(s: Seq<u8>) -> bool {
    s.len() > 0 && forall|i: int| 0 <= i < s.len() ==> 0x30 <= #[trigger] s[i] <= 0x39
}

proof fn lemma_digits_value_grows(s: Seq<u8>, k: int)
    requires
        0 <= k <= s.len(),
        forall|i: int| 0 <= i < s.len() ==> 0x30 <= #[trigger] s[i] <= 0x39,
    ensures
        digits_value(s.subrange(0, k)) <= digits_value(s),
    decreases s.len() - k,
{
    if k < s.len() {
        let t = s.subrange(0, k + 1);
        assert(t.drop_last() =~= s.subrange(0, k));
        assert(t.last() == s[k]);
        lemma_digits_value_grows(s, k + 1);
    } else {
        assert(s.subrange(0, k) =~= s);
    }
}

/// Reads a decimal number no larger than `max`.
pub fn parse_decimal(s: &[u8], max: u64) -> (r: Option<u64>)
    ensures
        r == if is_digits(s@) && digits_value(s@) <= max {
            Some(digits_value(s@) as u64)
        } else {
            None::<u64>
        },
{
    if s.len() == 0 {
        return None;
    }
    let mut acc: u64 = 0;
    let mut i: usize = 0;
    while i < s.len()
        invariant
            0 <= i <= s@.len(),
            forall|j: int| 0 <= j < i ==> 0x30 <= #[trigger] s@[j] <= 0x39,
            acc == digits_value(s@.subrange(0, i as int)),
            acc <= max,
        decreases s@.len() - i,
    {
        let c = s[i];
        let ghost prefix = s@.subrange(0, i as int + 1);
        proof {
            assert(prefix.drop_last() =~= s@.subrange(0, i as int));
            assert(prefix.last() == c);
        }
        if c < 0x30 || c > 0x39 {
            proof {
                assert(!is_digits(s@));
            }
            return None;
        }
        let d: u64 = (c - 0x30) as u64;
        if d > max || acc > (max - d) / 10 {
            proof {
                if d <= max {
                    assert(acc * 10 + d > max) by (nonlinear_arith)
                        requires
                            acc > (max - d) / 10,
                            d <= max,
                    ;
                }
                assert(digits_value(prefix) == acc * 10 + d);
                if is_digits(s@) {
                    lemma_digits_value_grows(s@, i as int + 1);
                }
            }
            return None;
        }
        proof {
            assert(acc * 10 + d <= max) by (nonlinear_arith)
                requires
                    acc <= (max - d) / 10,
                    d <= max,
            ;
        }
        acc = acc * 10 + d;
        i = i + 1;
    }
    proof {
        assert(s@.subrange(0, s@.len() as int) =~= s@);
    }
    Some(acc)
}

/// The index of the first LF at or after `from`, if there is one.
pub fn find_lf(s: &[u8], from: usize) -> (r: Option<usize>)
    requires
        from <= s@.len(),
    ensures
        match r {
            Some(i) => from <= i < s@.len() && s@[i as int] == 0x0a && forall|j: int|
                from <= j < i ==> s@[j] != 0x0a,
            None => forall|j: int| from <= j < s@.len() ==> s@[j] != 0x0a,
        },
{
    let mut i: usize = from;
    while i < s.len()
        invariant
            from <= i <= s@.len(),
            forall|j: int| from <= j < i ==> s@[j] != 0x0a,
        decreases s@.len() - i,
    {
        if s[i] == 0x0a {
            return Some(i);
        }
        i = i + 1;
    }
    None
}

/// Whether `s` begins with `prefix`.
pub fn starts_with(s: &[u8], prefix: &[u8]) -> (r: bool)
    ensures
        r == (prefix@.len() <= s@.len() && s@.subrange(0, prefix@.len() as int) == prefix@),
{
    if prefix.len() > s.len() {
        return false;
    }
    let mut i: usize = 0;
    while i < prefix.len()
        invariant
            prefix@.len() <= s@.len(),
            0 <= i <= prefix@.len(),
            forall|j: int| 0 <= j < i ==> s@[j] == prefix@[j],
        decreases prefix@.len() - i,
    {
        if s[i] != prefix[i] {
            proof {
                assert(s@.subrange(0, prefix@.len() as int)[i as int] != prefix@[i as int]);
            }
            return false;
        }
        i = i + 1;
    }
    proof {
        assert(s@.subrange(0, prefix@.len() as int) =~= prefix@);
    }
    true
}

/// A non-empty run of bytes without whitespace.
pub open spec fn is_word(w: Seq<u8>) -> bool {
    w.len() > 0 && forall|i: int| 0 <= i < w.len() ==> !is_ws(#[trigger] w[i])
}

/// The words `ws` written one after the other, a space between two.
pub open spec fn join_words(ws: Seq<Seq<u8>>) -> Seq<u8>
    decreases ws.len(),
{
    if ws.len() == 0 {
        Seq::empty()
    } else if ws.len() == 1 {
        ws[0]
    } else {
        join_words(ws.drop_last()) + seq![0x20u8] + ws.last()
    }
}

proof fn lemma_scan_append_word(a: Seq<u8>, t: Seq<u8>)
    requires
        forall|i: int| 0 <= i < t.len() ==> !is_ws(#[trigger] t[i]),
    ensures
        scan_words(a + t) == (scan_words(a).0, scan_words(a).1 + t),
    decreases t.len(),
{
    if t.len() == 0 {
        assert(a + t =~= a);
        assert(scan_words(a).1 + t =~= scan_words(a).1);
    } else {
        let t2 = t.drop_last();
        lemma_scan_append_word(a, t2);
        assert((a + t).drop_last() =~= a + t2);
        assert((a + t).last() == t.last());
        assert(scan_words(a).1 + t2 + seq![t.last()] =~= scan_words(a).1 + t);
        assert((scan_words(a).1 + t2).push(t.last()) =~= scan_words(a).1 + t);
    }
}

/// The words of words joined by spaces are those words.
pub proof fn lemma_words_join(ws: Seq<Seq<u8>>)
    requires
        ws.len() > 0,
        forall|i: int| 0 <= i < ws.len() ==> is_word(#[trigger] ws[i]),
    ensures
        scan_words(join_words(ws)) == (ws.drop_last(), ws.last()),
        words(join_words(ws)) == ws,
        forall|i: int| 0 <= i < join_words(ws).len() ==> join_words(ws)[i] != 0x0a,
        !is_ws(join_words(ws).last()),
        join_words(ws).len() > 0,
    decreases ws.len(),
{
    if ws.len() == 1 {
        lemma_scan_append_word(Seq::empty(), ws[0]);
        assert(Seq::<u8>::empty() + ws[0] =~= ws[0]);
        assert(ws.drop_last() =~= Seq::<Seq<u8>>::empty());
        assert(Seq::<u8>::empty() + ws[0] =~= ws[0]);
        assert(ws =~= seq![ws[0]]);
    } else {
        let front = ws.drop_last();
        assert forall|i: int| 0 <= i < front.len() implies is_word(#[trigger] front[i]) by {
            assert(front[i] == ws[i]);
        }
        lemma_words_join(front);
        let a = join_words(front) + seq![0x20u8];
        assert(a.drop_last() =~= join_words(front));
        assert(front.last() == front[front.len() - 1]);
        assert(scan_words(a) == (front.drop_last().push(front.last()), Seq::<u8>::empty()));
        assert(front.drop_last().push(front.last()) =~= front);
        assert(is_word(ws[ws.len() - 1]));
        lemma_scan_append_word(a, ws.last());
        assert(a + ws.last() =~= join_words(ws));
        assert(Seq::<u8>::empty() + ws.last() =~= ws.last());
        assert(front.push(ws.last()) =~= ws);
        let j = join_words(ws);
        assert forall|i: int| 0 <= i < j.len() implies j[i] != 0x0a by {
            if i < join_words(front).len() {
                assert(j[i] == join_words(front)[i]);
            } else if i > join_words(front).len() {
                assert(j[i] == ws.last()[i - join_words(front).len() - 1]);
            }
        }
        assert(j.last() == ws.last().last());
    }
}

/// Decimal digits read back as the number they write.
pub proof fn lemma_decimal_digits(n: nat)
    ensures
        is_digits(crate::encode::decimal(n)),
        digits_value(crate::encode::decimal(n)) == n,
        crate::encode::decimal(n).len() > 0,
        forall|i: int|
            0 <= i < crate::encode::decimal(n).len() ==> !is_ws(#[trigger] crate::encode::decimal(n)[i]),
    decreases n,
{
    let d = crate::encode::decimal(n);
    if n >= 10 {
        lemma_decimal_digits(n / 10);
        let front = crate::encode::decimal(n / 10);
        assert(d.drop_last() =~= front);
        assert(d.last() == (0x30 + n % 10) as u8);
        assert(n == (n / 10) * 10 + n % 10);
        assert((d.last() - 0x30) as nat == n % 10);
        assert(digits_value(d) == digits_value(front) * 10 + n % 10);
        assert forall|i: int| 0 <= i < d.len() implies 0x30 <= #[trigger] d[i] <= 0x39 by {
            if i < front.len() {
                assert(d[i] == front[i]);
            }
        }
    } else {
        assert(d.drop_last() =~= Seq::<u8>::empty());
        assert(digits_value(d) == digits_value(d.drop_last()) * 10 + (d.last() - 0x30) as nat);
    }
}

} // verus!
