//! Operations on text: byte slices, prefixes, ordering, decimal numbers and joined lists.
use itertools::Itertools;
use vstd::prelude::*;
use vstd::string::*;
use vstd::utf8::*;

verus! {

/// Whether the bytes `start..end` of `text` hold whole characters.
pub open spec fn is_slice(text: Seq<char>, start: int, end: int) -> bool {
    &&& 0 <= start <= end <= encode_utf8(text).len()
    &&& is_char_boundary(encode_utf8(text), start)
    &&& is_char_boundary(encode_utf8(text), end)
}

/// The characters that the bytes `start..end` of `text` hold.
pub open spec fn slice_of(text: Seq<char>, start: int, end: int) -> Seq<char> {
    decode_utf8(encode_utf8(text).subrange(start, end))
}

/// The characters in the bytes `start..end` of `text`.
pub fn slice(text: &str, start: usize, end: usize) -> (part: String)
    requires
        is_slice(text@, start as int, end as int),
    ensures
        part@ == slice_of(text@, start as int, end as int),
{
    proof {
        lemma_boundary_in_prefix(text@, start as int, end as int);
    }
    let head = text.split_at(end).0;
    let part = head.split_at(start).1;
    proof {
        let bytes = encode_utf8(text@);
        assert(encode_utf8(part@) =~= bytes.subrange(start as int, end as int));
        encode_utf8_decode_utf8(part@);
    }
    part.to_owned()
}

/// Whether the bytes `start..end` of `text` hold whole characters.
pub fn can_slice(text: &str, start: usize, end: usize) -> (ok: bool)
    ensures
        ok == is_slice(text@, start as int, end as int),
{
    let len: usize = text.as_bytes().len();
    start <= end && end <= len && text.is_char_boundary(start) && text.is_char_boundary(end)
}

pub proof fn lemma_boundary_in_prefix(text: Seq<char>, start: int, end: int)
    requires
        is_slice(text, start, end),
    ensures
        is_char_boundary(encode_utf8(text).subrange(0, end), start),
{
    let bytes = encode_utf8(text);
    let head = bytes.subrange(0, end);
    encode_utf8_valid_utf8(text);
    valid_utf8_split(bytes, end);
    if start == end {
        is_char_boundary_start_end_of_seq(head);
    } else {
        is_char_boundary_iff_not_is_continuation_byte(bytes, start);
        is_char_boundary_iff_not_is_continuation_byte(head, start);
    }
}

/// The characters of `text`, in order.
pub fn chars_of(text: &str) -> (chars: Vec<char>)
    ensures
        chars@ == text@,
{
    let mut chars: Vec<char> = Vec::new();
    for c in it: text.chars()
        invariant
            it.seq() == text@,
            chars@ == text@.take(it.index() as int),
    {
        chars.push(c);
        assert(text@.take(it.index() + 1) =~= text@.take(it.index() as int).push(c));
    }
    assert(text@.take(text@.len() as int) =~= text@);
    chars
}

/// Whether `text` begins with the characters of `prefix`.
pub fn starts_with(text: &str, prefix: &str) -> (found: bool)
    ensures
        found == prefix@.is_prefix_of(text@),
{
    let wanted = chars_of(prefix);
    let given = chars_of(text);
    if given.len() < wanted.len() {
        return false;
    }
    let mut i: usize = 0;
    while i < wanted.len()
        invariant
            wanted@ == prefix@,
            given@ == text@,
            i <= wanted@.len() <= given@.len(),
            forall|j: int| 0 <= j < i ==> wanted@[j] == given@[j],
        decreases wanted@.len() - i,
    {
        if wanted[i] != given[i] {
            assert(text@.subrange(0, prefix@.len() as int)[i as int] == given@[i as int]);
            return false;
        }
        i = i + 1;
    }
    assert(prefix@ =~= text@.subrange(0, prefix@.len() as int));
    true
}

/// Whether `a` comes before `b` in the order of their characters.
pub open spec fn precedes(a: Seq<char>, b: Seq<char>) -> bool {
    exists|k: int|
        #![trigger a.take(k)]
        {
            &&& 0 <= k <= a.len()
            &&& k < b.len()
            &&& a.take(k) == b.take(k)
            &&& k < a.len() ==> (a[k] as int) < (b[k] as int)
        }
}

/// Whether `a` comes before `b` in the order of their characters.
pub fn comes_before(a: &str, b: &str) -> (before: bool)
    ensures
        before == precedes(a@, b@),
{
    let left = chars_of(a);
    let right = chars_of(b);
    let mut i: usize = 0;
    while i < left.len() && i < right.len() && left[i] == right[i]
        invariant
            left@ == a@,
            right@ == b@,
            i <= left@.len(),
            i <= right@.len(),
            forall|j: int| 0 <= j < i ==> a@[j] == b@[j],
        decreases left@.len() - i,
    {
        i = i + 1;
    }
    let before = if i < right.len() {
        i == left.len() || left[i] < right[i]
    } else {
        false
    };
    proof {
        assert(a@.take(i as int) =~= b@.take(i as int));
        if precedes(a@, b@) {
            let k = choose|k: int|
                #![trigger a@.take(k)]
                {
                    &&& 0 <= k <= a@.len()
                    &&& k < b@.len()
                    &&& a@.take(k) == b@.take(k)
                    &&& k < a@.len() ==> (a@[k] as int) < (b@[k] as int)
                };
            if k < i {
                assert(a@[k] == b@[k]);
            }
            if k > i {
                assert(a@.take(k)[i as int] == b@.take(k)[i as int]);
            }
            assert(before);
        }
    }
    before
}

/// Two texts are the same, or exactly one of them precedes the other.
pub proof fn lemma_precedes_total(a: Seq<char>, b: Seq<char>)
    ensures
        !precedes(a, a),
        precedes(a, b) ==> !precedes(b, a),
        a != b ==> precedes(a, b) || precedes(b, a),
{
    lemma_precedes_irreflexive(a);
    if precedes(a, b) && precedes(b, a) {
        lemma_precedes_transitive(a, b, a);
    }
    if a != b {
        let k = first_difference(a, b, 0);
        lemma_first_difference(a, b, 0);
        assert(a.take(k) =~= b.take(k));
        assert(b.take(k) =~= a.take(k));
        if k == a.len() && k == b.len() {
            assert(a =~= b);
        }
    }
}

pub proof fn lemma_precedes_irreflexive(a: Seq<char>)
    ensures
        !precedes(a, a),
{
}

spec fn first_difference(a: Seq<char>, b: Seq<char>, k: int) -> int
    decreases a.len() - k,
{
    if 0 <= k < a.len() && k < b.len() && a[k] == b[k] {
        first_difference(a, b, k + 1)
    } else {
        k
    }
}

proof fn lemma_first_difference(a: Seq<char>, b: Seq<char>, k: int)
    requires
        0 <= k <= a.len(),
        k <= b.len(),
        forall|j: int| 0 <= j < k ==> a[j] == b[j],
    ensures
        ({
            let d = first_difference(a, b, k);
            &&& k <= d <= a.len()
            &&& d <= b.len()
            &&& forall|j: int| 0 <= j < d ==> a[j] == b[j]
            &&& d < a.len() && d < b.len() ==> a[d] != b[d]
        }),
    decreases a.len() - k,
{
    if k < a.len() && k < b.len() && a[k] == b[k] {
        lemma_first_difference(a, b, k + 1);
    }
}

/// What precedes a text also precedes every text that comes after it.
pub proof fn lemma_precedes_transitive(a: Seq<char>, b: Seq<char>, c: Seq<char>)
    requires
        precedes(a, b),
        precedes(b, c),
    ensures
        precedes(a, c),
{
    let i = choose|k: int|
        #![trigger a.take(k)]
        {
            &&& 0 <= k <= a.len()
            &&& k < b.len()
            &&& a.take(k) == b.take(k)
            &&& k < a.len() ==> (a[k] as int) < (b[k] as int)
        };
    let j = choose|k: int|
        #![trigger b.take(k)]
        {
            &&& 0 <= k <= b.len()
            &&& k < c.len()
            &&& b.take(k) == c.take(k)
            &&& k < b.len() ==> (b[k] as int) < (c[k] as int)
        };
    let k = if i < j {
        i
    } else {
        j
    };
    assert forall|x: int| 0 <= x < k implies a[x] == c[x] by {
        assert(a.take(i)[x] == b.take(i)[x]);
        assert(b.take(j)[x] == c.take(j)[x]);
    }
    assert(a.take(k) =~= c.take(k));
    if i < j {
        assert(b.take(j)[i] == c.take(j)[i]);
    } else if j < i {
        assert(a.take(i)[j] == b.take(i)[j]);
    }
}

/// The digit that stands for `d`.
pub open spec fn digit(d: nat) -> char {
    (('0' as nat) + d) as char
}

/// The decimal digits of `n`, without leading zeros.
pub open spec fn decimal_of(n: nat) -> Seq<char>
    decreases n,
{
    if n < 10 {
        seq![digit(n)]
    } else {
        decimal_of(n / 10).push(digit(n % 10))
    }
}

/// The decimal digits of `n`, without leading zeros.
pub fn decimal(n: usize) -> (digits: String)
    ensures
        digits@ == decimal_of(n as nat),
    decreases n,
{
    let mut digits = if n < 10 {
        String::new()
    } else {
        decimal(n / 10)
    };
    let ghost front = digits@;
    let last = digit_text(n % 10);
    digits.append(last);
    assert(digits@ =~= front.push(digit((n % 10) as nat)));
    digits
}

fn digit_text(d: usize) -> (text: &'static str)
    requires
        d < 10,
    ensures
        text@ =~= seq![digit(d as nat)],
{
    proof {
        reveal_strlit("0");
        reveal_strlit("1");
        reveal_strlit("2");
        reveal_strlit("3");
        reveal_strlit("4");
        reveal_strlit("5");
        reveal_strlit("6");
        reveal_strlit("7");
        reveal_strlit("8");
        reveal_strlit("9");
    }
    match d {
        0 => "0",
        1 => "1",
        2 => "2",
        3 => "3",
        4 => "4",
        5 => "5",
        6 => "6",
        7 => "7",
        8 => "8",
        _ => "9",
    }
}

/// Different numbers have different decimal digits.
pub proof fn lemma_decimal_injective(m: nat, n: nat)
    requires
        decimal_of(m) == decimal_of(n),
    ensures
        m == n,
    decreases m,
{
    assert(decimal_of(m).last() == digit(m % 10));
    assert(decimal_of(n).last() == digit(n % 10));
    assert(m % 10 == n % 10);
    if m >= 10 && n >= 10 {
        assert(decimal_of(m).drop_last() =~= decimal_of(m / 10));
        assert(decimal_of(n).drop_last() =~= decimal_of(n / 10));
        lemma_decimal_injective(m / 10, n / 10);
    } else if m >= 10 {
        lemma_decimal_nonempty(m / 10);
        assert(decimal_of(m).len() > 1);
    } else if n >= 10 {
        lemma_decimal_nonempty(n / 10);
        assert(decimal_of(n).len() > 1);
    }
}

proof fn lemma_decimal_nonempty(n: nat)
    ensures
        decimal_of(n).len() > 0,
{
}

/// The characters of a text that may be missing.
pub open spec fn option_view(text: Option<String>) -> Option<Seq<char>> {
    match text {
        Some(t) => Some(t@),
        None => None,
    }
}

/// The texts that `items` hold.
pub open spec fn texts(items: Seq<String>) -> Seq<Seq<char>> {
    items.map_values(|item: String| item@)
}

/// The texts of `items` one after the other, with `separator` between each two.
pub open spec fn joined(items: Seq<Seq<char>>, separator: Seq<char>) -> Seq<char>
    decreases items.len(),
{
    if items.len() == 0 {
        Seq::empty()
    } else if items.len() == 1 {
        items[0]
    } else {
        joined(items.drop_last(), separator) + separator + items.last()
    }
}

/// `Itertools::join`: all items in one text, with `separator` between each two.
#[verifier::external_body]
pub(crate) fn join(items: &Vec<String>, separator: &str) -> (text: String)
    ensures
        text@ == joined(texts(items@), separator@),
{
    items.iter().join(separator)
}

} // verus!
