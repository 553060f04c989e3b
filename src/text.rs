//! Byte-string helpers shared by the codec and the policy modules.
use vstd::prelude::*;

verus! {

/// Every byte is 7-bit ASCII.
pub open spec fn is_ascii_bytes(s: Seq<u8>) -> bool {
    forall|i: int| 0 <= i < s.len() ==> s[i] < 128
}

/// `needle` occurs in `s` starting at index `i`.
pub open spec fn occurs_at(s: Seq<u8>, needle: Seq<u8>, i: int) -> bool {
    0 <= i && i + needle.len() <= s.len() && s.subrange(i, i + needle.len()) == needle
}

/// `i` is the first index at which `needle` occurs in `s`.
pub open spec fn is_first_occurrence(s: Seq<u8>, needle: Seq<u8>, i: int) -> bool {
    occurs_at(s, needle, i) && forall|j: int| 0 <= j < i ==> !occurs_at(s, needle, j)
}

/// The first index at which `needle` occurs in `s`, if any.
pub open spec fn first_occurrence(s: Seq<u8>, needle: Seq<u8>) -> Option<int> {
    if exists|i: int| is_first_occurrence(s, needle, i) {
        Some(choose|i: int| is_first_occurrence(s, needle, i))
    } else {
        None
    }
}

/// The first index of byte `b` in `s`, if any.
pub open spec fn first_index_of(s: Seq<u8>, b: u8) -> Option<int> {
    first_occurrence(s, seq![b])
}

pub proof fn lemma_first_occurrence_unique(s: Seq<u8>, needle: Seq<u8>, i: int)
    requires
        is_first_occurrence(s, needle, i),
    ensures
        first_occurrence(s, needle) == Some(i),
{
    let k = choose|k: int| is_first_occurrence(s, needle, k);
    assert(is_first_occurrence(s, needle, k));
    if k < i {
        assert(!occurs_at(s, needle, k));
    } else if i < k {
        assert(!occurs_at(s, needle, i));
    }
}

pub proof fn lemma_no_occurrence(s: Seq<u8>, needle: Seq<u8>)
    requires
        forall|j: int| 0 <= j ==> !occurs_at(s, needle, j),
    ensures
        first_occurrence(s, needle) is None,
{
}

/// Byte-wise equality of two slices.
pub fn bytes_eq(a: &[u8], b: &[u8]) -> (r: bool)
    ensures
        r == (a@ == b@),
{
    if a.len() != b.len() {
        return false;
    }
    let mut i: usize = 0;
    while i < a.len()
        invariant
            a@.len() == b@.len(),
            0 <= i <= a@.len(),
            forall|j: int| 0 <= j < i ==> a@[j] == b@[j],
        decreases a@.len() - i,
    {
        if a[i] != b[i] {
            return false;
        }
        i = i + 1;
    }
    assert(a@ =~= b@);
    true
}

/// Searches `this` for the first occurrence of `needle`.
pub fn position(this: &[u8], needle: &[u8]) -> (r: Option<usize>)
    requires
        needle@.len() > 0,
    ensures
        match r {
            Some(i) => first_occurrence(this@, needle@) == Some(i as int),
            None => first_occurrence(this@, needle@) is None,
        },
{
    if needle.len() > this.len() {
        proof {
            assert forall|j: int| 0 <= j implies !occurs_at(this@, needle@, j) by {}
            lemma_no_occurrence(this@, needle@);
        }
        return None;
    }
    let last = this.len() - needle.len();
    let mut i: usize = 0;
    while i <= last
        invariant
            last + needle@.len() == this@.len(),
            this@.len() <= usize::MAX,
            needle@.len() > 0,
            0 <= i <= last + 1,
            forall|j: int| 0 <= j < i ==> !occurs_at(this@, needle@, j),
        decreases last + 1 - i,
    {
        let mut k: usize = 0;
        let mut same = true;
        while k < needle.len()
            invariant
                i <= last,
                last + needle@.len() == this@.len(),
                this@.len() <= usize::MAX,
                0 <= k <= needle@.len(),
                same == forall|t: int| 0 <= t < k ==> this@[i + t] == needle@[t],
            decreases needle@.len() - k,
        {
            if this[i + k] != needle[k] {
                same = false;
            }
            k = k + 1;
        }
        if same {
            proof {
                assert(this@.subrange(i as int, i + needle@.len()) =~= needle@);
                lemma_first_occurrence_unique(this@, needle@, i as int);
            }
            return Some(i);
        }
        proof {
            let t = choose|t: int| 0 <= t < needle@.len() && this@[i + t] != needle@[t];
            assert(this@.subrange(i as int, i + needle@.len())[t] != needle@[t]);
        }
        i = i + 1;
    }
    proof {
        assert forall|j: int| 0 <= j implies !occurs_at(this@, needle@, j) by {}
        lemma_no_occurrence(this@, needle@);
    }
    None
}

/// The first index of byte `b` in `s`.
pub fn index_of_byte(s: &[u8], b: u8) -> (r: Option<usize>)
    ensures
        match r {
            Some(i) => first_index_of(s@, b) == Some(i as int) && s@[i as int] == b,
            None => first_index_of(s@, b) is None,
        },
{
    let mut i: usize = 0;
    while i < s.len()
        invariant
            0 <= i <= s@.len(),
            forall|j: int| 0 <= j < i ==> s@[j] != b,
        decreases s@.len() - i,
    {
        if s[i] == b {
            proof {
                assert(s@.subrange(i as int, i + 1) =~= seq![b]);
                assert forall|j: int| 0 <= j < i implies !occurs_at(s@, seq![b], j) by {
                    if occurs_at(s@, seq![b], j) {
                        assert(s@.subrange(j, j + 1)[0] == b);
                    }
                }
                lemma_first_occurrence_unique(s@, seq![b], i as int);
            }
            return Some(i);
        }
        i = i + 1;
    }
    proof {
        assert forall|j: int| 0 <= j implies !occurs_at(s@, seq![b], j) by {
            if occurs_at(s@, seq![b], j) {
                assert(s@.subrange(j, j + 1)[0] == b);
            }
        }
        lemma_no_occurrence(s@, seq![b]);
    }
    None
}

/// The value of a string of decimal digits.
pub open spec fn decimal_value(s: Seq<u8>) -> int
    decreases s.len(),
{
    if s.len() == 0 {
        0
    } else {
        decimal_value(s.drop_last()) * 10 + (s.last() - 48)
    }
}

pub open spec fn all_digits(s: Seq<u8>) -> bool {
    forall|i: int| 0 <= i < s.len() ==> 48 <= #[trigger] s[i] <= 57
}

/// The digits of a number, after an optional `+` sign.
pub open spec fn number_digits(s: Seq<u8>) -> Seq<u8> {
    if s.len() > 0 && s[0] == 43 {
        s.drop_first()
    } else {
        s
    }
}

/// A decimal number that fits a `usize`.
pub open spec fn decimal_number(s: Seq<u8>) -> Option<int> {
    let d = number_digits(s);
    if d.len() > 0 && all_digits(d) && decimal_value(d) <= usize::MAX {
        Some(decimal_value(d))
    } else {
        None
    }
}

proof fn lemma_decimal_grows(s: Seq<u8>)
    requires
        all_digits(s),
    ensures
        decimal_value(s) >= 0,
        s.len() > 0 ==> decimal_value(s) >= decimal_value(s.drop_last()),
    decreases s.len(),
{
    if s.len() > 0 {
        lemma_decimal_grows(s.drop_last());
    }
}

/// Reads an unsigned decimal number (an optional `+`, then digits).
pub fn parse_decimal(s: &[u8]) -> (r: Option<usize>)
    ensures
        match decimal_number(s@) {
            Some(n) => r matches Some(v) && v == n,
            None => r is None,
        },
{
    let start: usize = if s.len() > 0 && s[0] == 43 {
        1
    } else {
        0
    };
    let ghost d = number_digits(s@);
    assert(d =~= s@.subrange(start as int, s@.len() as int));
    if start >= s.len() {
        return None;
    }
    let mut value: usize = 0;
    let mut i: usize = start;
    assert(s@.subrange(start as int, start as int) =~= Seq::<u8>::empty());
    while i < s.len()
        invariant
            start <= i <= s@.len(),
            d == number_digits(s@),
            d == s@.subrange(start as int, s@.len() as int),
            all_digits(s@.subrange(start as int, i as int)),
            value == decimal_value(s@.subrange(start as int, i as int)),
        decreases s@.len() - i,
    {
        let b = s[i];
        let ghost pre = s@.subrange(start as int, i as int);
        assert(s@.subrange(start as int, i + 1).drop_last() =~= pre);
        if b < 48 || b > 57 {
            proof {
                assert(d[i - start] == b);
                assert(!all_digits(d));
            }
            return None;
        }
        assert(all_digits(s@.subrange(start as int, i + 1)));
        let digit = (b - 48) as usize;
        let next = match value.checked_mul(10) {
            Some(v) => v.checked_add(digit),
            None => None,
        };
        match next {
            Some(v) => {
                value = v;
            },
            None => {
                proof {
                    let k = (i + 1 - start) as int;
                    assert(d.subrange(0, k) =~= s@.subrange(start as int, i + 1));
                    assert(decimal_value(d.subrange(0, k)) == value * 10 + digit);
                    assert(value * 10 + digit > usize::MAX);
                    lemma_decimal_prefix_bound(d, k);
                }
                return None;
            },
        }
        i = i + 1;
    }
    assert(s@.subrange(start as int, i as int) =~= d);
    Some(value)
}

/// A longer string of digits is worth at least as much as its prefix.
proof fn lemma_decimal_prefix_bound(d: Seq<u8>, k: int)
    requires
        0 < k <= d.len(),
        all_digits(d.subrange(0, k)),
    ensures
        all_digits(d) ==> decimal_value(d) >= decimal_value(d.subrange(0, k)),
    decreases d.len() - k,
{
    if k < d.len() && all_digits(d) {
        assert(d.subrange(0, k + 1).drop_last() =~= d.subrange(0, k));
        assert(all_digits(d.subrange(0, k + 1)));
        lemma_decimal_grows(d.subrange(0, k + 1));
        lemma_decimal_prefix_bound(d, k + 1);
    } else if k == d.len() {
        assert(d.subrange(0, k) =~= d);
    }
}

} // verus!
