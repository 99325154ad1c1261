//! The dotted-quad address the push endpoint listens on.
use vstd::prelude::*;

verus! {

pub open spec fn is_digit(c: char) -> bool {
    '0' <= c && c <= '9'
}

/// The decimal value of a run of digits.
pub open spec fn digits_value(s: Seq<char>) -> int
    decreases s.len(),
{
    if s.len() == 0 {
        0
    } else {
        digits_value(s.drop_last()) * 10 + (s.last() as int - '0' as int)
    }
}

/// The digits of a field, after an optional leading `+`.
pub open spec fn unsigned_part(s: Seq<char>) -> Seq<char> {
    if s.len() > 0 && s[0] == '+' {
        s.drop_first()
    } else {
        s
    }
}

/// A field is an octet when it is a non-empty run of digits, optionally
/// signed with `+`, whose value fits in a byte.
pub open spec fn is_octet(s: Seq<char>) -> bool {
    let d = unsigned_part(s);
    &&& d.len() > 0
    &&& forall|k: int| 0 <= k < d.len() ==> is_digit(#[trigger] d[k])
    &&& digits_value(d) <= 255
}

/// The fields of `s` between dots; there is always at least one.
pub open spec fn dot_fields(s: Seq<char>) -> Seq<Seq<char>>
    decreases s.len(),
{
    if s.len() == 0 {
        seq![Seq::empty()]
    } else {
        let f = dot_fields(s.drop_last());
        if s.last() == '.' {
            f.push(Seq::empty())
        } else {
            f.update(f.len() - 1, f.last().push(s.last()))
        }
    }
}

/// An address is exactly four octet fields.
pub open spec fn is_address(s: Seq<char>) -> bool {
    &&& dot_fields(s).len() == 4
    &&& forall|k: int| 0 <= k < 4 ==> is_octet(#[trigger] dot_fields(s)[k])
}

proof fn lemma_dot_fields_nonempty(s: Seq<char>)
    ensures
        dot_fields(s).len() >= 1,
    decreases s.len(),
{
    if s.len() > 0 {
        lemma_dot_fields_nonempty(s.drop_last());
    }
}

proof fn lemma_digits_grow(d: Seq<char>, j: int)
    requires
        0 <= j <= d.len(),
        forall|k: int| 0 <= k < d.len() ==> is_digit(#[trigger] d[k]),
    ensures
        digits_value(d.subrange(0, j)) <= digits_value(d),
        digits_value(d) >= 0,
    decreases d.len() - j,
{
    if j < d.len() {
        lemma_digits_grow(d, j + 1);
        assert(d.subrange(0, j + 1).drop_last() =~= d.subrange(0, j));
        lemma_digits_nonneg(d.subrange(0, j));
    } else {
        assert(d.subrange(0, j) =~= d);
        lemma_digits_nonneg(d);
    }
}

proof fn lemma_digits_nonneg(d: Seq<char>)
    requires
        forall|k: int| 0 <= k < d.len() ==> is_digit(#[trigger] d[k]),
    ensures
        digits_value(d) >= 0,
    decreases d.len(),
{
    if d.len() > 0 {
        let p = d.drop_last();
        assert forall|k: int| 0 <= k < p.len() implies is_digit(#[trigger] p[k]) by {
            assert(p[k] == d[k]);
        }
        lemma_digits_nonneg(p);
    }
}

/// Reads one field as a byte.
pub fn parse_octet(f: &Vec<char>) -> (r: Option<u8>)
    ensures
        r.is_some() <==> is_octet(f@),
        r.is_some() ==> r.unwrap() as int == digits_value(unsigned_part(f@)),
{
    let ghost d = unsigned_part(f@);
    let start: usize = if f.len() > 0 && f[0] == '+' { 1 } else { 0 };
    proof {
        assert(d =~= f@.subrange(start as int, f@.len() as int));
    }
    if start >= f.len() {
        return None;
    }
    let mut value: u32 = 0;
    let mut j: usize = start;
    while j < f.len()
        invariant
            start <= j <= f@.len(),
            d =~= f@.subrange(start as int, f@.len() as int),
            d == unsigned_part(f@),
            value as int == digits_value(d.subrange(0, j - start)),
            value <= 255,
            forall|k: int| 0 <= k < j - start ==> is_digit(#[trigger] d[k]),
        decreases f@.len() - j,
    {
        let c = f[j];
        if !('0' <= c && c <= '9') {
            proof {
                assert(d[j - start] == c);
                assert(!is_digit(d[j - start]));
                assert(unsigned_part(f@) == d);
                assert(!(forall|k: int| 0 <= k < d.len() ==> is_digit(#[trigger] d[k])));
                assert(!is_octet(f@));
            }
            return None;
        }
        proof {
            assert(d.subrange(0, j + 1 - start).drop_last() =~= d.subrange(0, j - start));
            assert(d.subrange(0, j + 1 - start).last() == c);
        }
        let next: u32 = value * 10 + (c as u32 - '0' as u32);
        if next > 255 {
            proof {
                assert(digits_value(d.subrange(0, j + 1 - start)) == next as int);
                assert(unsigned_part(f@) == d);
                if forall|k: int| 0 <= k < d.len() ==> is_digit(#[trigger] d[k]) {
                    lemma_digits_grow(d, j + 1 - start);
                    assert(digits_value(d) > 255);
                }
                assert(!is_octet(f@));
            }
            return None;
        }
        value = next;
        j = j + 1;
    }
    proof {
        assert(d.subrange(0, j - start) =~= d);
    }
    Some(value as u8)
}

/// Splits `s` at each dot.
pub fn split_dots(s: &str) -> (r: Vec<Vec<char>>)
    ensures
        r@.len() == dot_fields(s@).len(),
        forall|k: int| 0 <= k < r@.len() ==> (#[trigger] r@[k])@ == dot_fields(s@)[k],
{
    let n = s.unicode_len();
    let mut done: Vec<Vec<char>> = Vec::new();
    let mut cur: Vec<char> = Vec::new();
    let mut i: usize = 0;
    proof {
        assert(s@.subrange(0, 0) =~= Seq::<char>::empty());
    }
    while i < n
        invariant
            n == s@.len(),
            i <= n,
            dot_fields(s@.subrange(0, i as int)).len() == done@.len() + 1,
            forall|k: int| 0 <= k < done@.len() ==> (#[trigger] done@[k])@ == dot_fields(s@.subrange(0, i as int))[k],
            cur@ == dot_fields(s@.subrange(0, i as int)).last(),
        decreases n - i,
    {
        let c = s.get_char(i);
        proof {
            let t = s@.subrange(0, i + 1);
            assert(t.drop_last() =~= s@.subrange(0, i as int));
            assert(t.last() == c);
        }
        if c == '.' {
            done.push(cur);
            cur = Vec::new();
        } else {
            cur.push(c);
        }
        i = i + 1;
    }
    proof {
        assert(s@.subrange(0, n as int) =~= s@);
    }
    done.push(cur);
    proof {
        assert forall|k: int| 0 <= k < done@.len() implies (#[trigger] done@[k])@ == dot_fields(s@)[k] by {}
    }
    done
}

/// Reads a dotted-quad address; `None` when it is malformed.
pub fn parse_address(s: &str) -> (r: Option<[u8; 4]>)
    ensures
        r.is_some() <==> is_address(s@),
        r.is_some() ==> forall|k: int| 0 <= k < 4 ==> #[trigger] r.unwrap()@[k] as int == digits_value(
            unsigned_part(dot_fields(s@)[k]),
        ),
{
    let fields = split_dots(s);
    if fields.len() != 4 {
        return None;
    }
    let mut out: [u8; 4] = [0, 0, 0, 0];
    let mut k: usize = 0;
    while k < 4
        invariant
            fields@.len() == 4,
            forall|j: int| 0 <= j < 4 ==> (#[trigger] fields@[j])@ == dot_fields(s@)[j],
            dot_fields(s@).len() == 4,
            k <= 4,
            forall|j: int| 0 <= j < k ==> is_octet(#[trigger] dot_fields(s@)[j]),
            forall|j: int| 0 <= j < k ==> #[trigger] out@[j] as int == digits_value(unsigned_part(dot_fields(s@)[j])),
        decreases 4 - k,
    {
        match parse_octet(&fields[k]) {
            Some(b) => {
                out[k] = b;
            },
            None => {
                return None;
            },
        }
        k = k + 1;
    }
    Some(out)
}

} // verus!
