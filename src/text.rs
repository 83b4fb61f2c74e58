use vstd::prelude::*;
use vstd::slice::slice_subrange;

verus! {

broadcast use vstd::slice::group_slice_axioms;

/// ASCII whitespace, as `u8::is_ascii_whitespace` defines it.
pub open spec fn is_space(b: u8) -> bool {
    b == 0x20u8 || b == 0x09u8 || b == 0x0au8 || b == 0x0cu8 || b == 0x0du8
}

pub fn is_space_byte(b: u8) -> (r: bool)
    ensures
        r == is_space(b),
{
    b == 0x20u8 || b == 0x09u8 || b == 0x0au8 || b == 0x0cu8 || b == 0x0du8
}

/// `s` holds `sep` at position `i`.
pub open spec fn matches_at(s: Seq<u8>, sep: Seq<u8>, i: int) -> bool {
    0 <= i && i + sep.len() <= s.len() && s.subrange(i, i + sep.len()) == sep
}

/// The first position at or after `i` where `sep` occurs in `s`, or -1.
pub open spec fn find_from(s: Seq<u8>, sep: Seq<u8>, i: int) -> int
    decreases s.len() + 1 - i,
{
    if i < 0 || i + sep.len() > s.len() {
        -1
    } else if matches_at(s, sep, i) {
        i
    } else {
        find_from(s, sep, i + 1)
    }
}

/// The pieces of `s` between the occurrences of `sep`, found left to right.
pub open spec fn split(s: Seq<u8>, sep: Seq<u8>) -> Seq<Seq<u8>>
    decreases s.len(),
{
    let f = find_from(s, sep, 0);
    if sep.len() == 0 || f < 0 || f + sep.len() > s.len() {
        seq![s]
    } else {
        seq![s.take(f)] + split(s.skip(f + sep.len()), sep)
    }
}

/// `s` without its leading whitespace.
pub open spec fn trim_start(s: Seq<u8>) -> Seq<u8>
    decreases s.len(),
{
    if s.len() > 0 && is_space(s[0]) {
        trim_start(s.skip(1))
    } else {
        s
    }
}

/// `s` without its trailing whitespace.
pub open spec fn trim_end(s: Seq<u8>) -> Seq<u8>
    decreases s.len(),
{
    if s.len() > 0 && is_space(s.last()) {
        trim_end(s.drop_last())
    } else {
        s
    }
}

pub open spec fn trim(s: Seq<u8>) -> Seq<u8> {
    trim_end(trim_start(s))
}

pub open spec fn is_digit(b: u8) -> bool {
    0x30u8 <= b && b <= 0x39u8
}

pub open spec fn all_digits(s: Seq<u8>) -> bool {
    forall|i: int| 0 <= i < s.len() ==> is_digit(#[trigger] s[i])
}

/// The number that the decimal digits `s` write.
pub open spec fn digits_value(s: Seq<u8>) -> nat
    decreases s.len(),
{
    if s.len() == 0 {
        0
    } else {
        digits_value(s.drop_last()) * 10 + (s.last() - 0x30u8) as nat
    }
}

/// The digits of a count, after an optional leading `+`.
pub open spec fn count_digits(s: Seq<u8>) -> Seq<u8> {
    if s.len() > 0 && s[0] == 0x2bu8 {
        s.skip(1)
    } else {
        s
    }
}

/// A count as `u32`'s `from_str` reads it: an optional `+`, then at least one
/// decimal digit, with a value that fits in 32 bits.
pub open spec fn count_of(s: Seq<u8>) -> Option<u32> {
    let d = count_digits(s);
    if d.len() > 0 && all_digits(d) && digits_value(d) <= u32::MAX {
        Some(digits_value(d) as u32)
    } else {
        None
    }
}

/// Whether two byte strings are equal.
pub fn bytes_equal(a: &[u8], b: &[u8]) -> (r: bool)
    ensures
        r == (a@ == b@),
{
    if a.len() != b.len() {
        return false;
    }
    let mut i: usize = 0;
    while i < a.len()
        invariant
            a@.len() == b@.len(),
            i <= a@.len(),
            forall|k: int| 0 <= k < i ==> a@[k] == b@[k],
        decreases a@.len() - i,
    {
        if a[i] != b[i] {
            return false;
        }
        i = i + 1;
    }
    assert(a@ =~= b@);
    true
}

/// Whether `s` holds `sep` at position `i`.
fn matches_at_exec(s: &[u8], sep: &[u8], i: usize) -> (r: bool)
    requires
        i + sep@.len() <= s@.len(),
    ensures
        r == matches_at(s@, sep@, i as int),
{
    let n = s.len();
    let w = slice_subrange(s, i, i + sep.len());
    bytes_equal(w, sep)
}

/// The first position where `sep` occurs in `s`.
pub fn find(s: &[u8], sep: &[u8]) -> (r: Option<usize>)
    requires
        sep@.len() > 0,
    ensures
        match r {
            Some(i) => find_from(s@, sep@, 0) == i,
            None => find_from(s@, sep@, 0) == -1,
        },
{
    let mut i: usize = 0;
    while sep.len() <= s.len() - i
        invariant
            sep@.len() > 0,
            i <= s@.len(),
            find_from(s@, sep@, 0) == find_from(s@, sep@, i as int),
        decreases s@.len() - i,
    {
        if matches_at_exec(s, sep, i) {
            return Some(i);
        }
        i = i + 1;
    }
    None
}

/// The pieces of `s` between the occurrences of `sep`.
pub fn split_on<'a>(s: &'a [u8], sep: &[u8]) -> (r: Vec<&'a [u8]>)
    requires
        sep@.len() > 0,
    ensures
        r@.len() == split(s@, sep@).len(),
        forall|k: int| 0 <= k < r@.len() ==> #[trigger] r@[k]@ == split(s@, sep@)[k],
{
    let mut out: Vec<&'a [u8]> = Vec::new();
    let mut rest: &'a [u8] = s;
    let ghost done: Seq<Seq<u8>> = seq![];
    loop
        invariant
            sep@.len() > 0,
            out@.len() == done.len(),
            forall|k: int| 0 <= k < out@.len() ==> #[trigger] out@[k]@ == done[k],
            done + split(rest@, sep@) == split(s@, sep@),
        decreases rest@.len(),
    {
        match find(rest, sep) {
            None => {
                out.push(rest);
                proof {
                    assert(split(rest@, sep@) == seq![rest@]);
                    done = done.push(rest@);
                    assert(done =~= split(s@, sep@));
                }
                return out;
            },
            Some(i) => {
                proof {
                    find_from_bounds(rest@, sep@, 0);
                }
                let n = rest.len();
                let piece = slice_subrange(rest, 0, i);
                let next = slice_subrange(rest, i + sep.len(), rest.len());
                out.push(piece);
                proof {
                    assert(piece@ =~= rest@.take(i as int));
                    assert(next@ =~= rest@.skip(i + sep@.len()));
                    assert(split(rest@, sep@) == seq![piece@] + split(next@, sep@));
                    assert(done + split(rest@, sep@) =~= done.push(piece@) + split(next@, sep@));
                    done = done.push(piece@);
                }
                rest = next;
            },
        }
    }
}

/// A found position leaves room for the separator.
pub proof fn find_from_bounds(s: Seq<u8>, sep: Seq<u8>, i: int)
    ensures
        find_from(s, sep, i) == -1 || (i <= find_from(s, sep, i) && matches_at(
            s,
            sep,
            find_from(s, sep, i),
        )),
    decreases s.len() + 1 - i,
{
    if i < 0 || i + sep.len() > s.len() {
    } else if matches_at(s, sep, i) {
    } else {
        find_from_bounds(s, sep, i + 1);
    }
}

/// `s` without leading and trailing whitespace.
pub fn trim_bytes<'a>(s: &'a [u8]) -> (r: &'a [u8])
    ensures
        r@ == trim(s@),
{
    let n = s.len();
    let mut i: usize = 0;
    proof {
        assert(s@.skip(0) =~= s@);
    }
    while i < n && is_space_byte(s[i])
        invariant
            n == s@.len(),
            i <= n,
            trim_start(s@.skip(i as int)) == trim_start(s@),
        decreases n - i,
    {
        proof {
            assert(s@.skip(i as int).skip(1) =~= s@.skip(i + 1));
        }
        i = i + 1;
    }
    let mid = slice_subrange(s, i, n);
    proof {
        assert(mid@ =~= s@.skip(i as int));
        assert(trim_start(mid@) == mid@);
        assert(mid@.take(mid@.len() as int) =~= mid@);
    }
    let mut j: usize = n - i;
    while j > 0 && is_space_byte(mid[j - 1])
        invariant
            j <= mid@.len(),
            trim_end(mid@.take(j as int)) == trim(s@),
        decreases j,
    {
        proof {
            assert(mid@.take(j as int).drop_last() =~= mid@.take(j - 1));
        }
        j = j - 1;
    }
    let r = slice_subrange(mid, 0, j);
    proof {
        assert(r@ =~= mid@.take(j as int));
    }
    r
}

/// Reads a count: an optional `+`, then decimal digits.
pub fn parse_count(s: &[u8]) -> (r: Option<u32>)
    ensures
        r == count_of(s@),
{
    let n = s.len();
    let mut i: usize = 0;
    if n > 0 && s[0] == 0x2bu8 {
        i = 1;
    }
    let ghost d = count_digits(s@);
    proof {
        assert(d =~= s@.skip(i as int));
    }
    if i == n {
        proof {
            assert(d.len() == 0);
        }
        return None;
    }
    let mut value: u32 = 0;
    let start = i;
    while i < n
        invariant
            start <= i <= n,
            n == s@.len(),
            d == s@.skip(start as int),
            d == count_digits(s@),
            all_digits(s@.subrange(start as int, i as int)),
            value == digits_value(s@.subrange(start as int, i as int)),
        decreases n - i,
    {
        let b = s[i];
        proof {
            assert(s@.subrange(start as int, i + 1).drop_last() =~= s@.subrange(
                start as int,
                i as int,
            ));
        }
        if b < 0x30u8 || b > 0x39u8 {
            proof {
                assert(d[i - start] == b);
                assert(!is_digit(d[i - start]));
                assert(!all_digits(d));
            }
            return None;
        }
        let digit = (b - 0x30u8) as u32;
        if value > (u32::MAX - digit) / 10 {
            proof {
                digits_value_grows(d, (i - start + 1) as int);
                assert(d.take(i - start + 1) =~= s@.subrange(start as int, i + 1));
                assert(s@.subrange(start as int, i + 1).last() == b);
                assert(digits_value(s@.subrange(start as int, i + 1)) == value * 10 + digit);
                assert(value * 10 + digit > u32::MAX) by (nonlinear_arith)
                    requires
                        value > (u32::MAX - digit) / 10,
                        digit <= 9,
                ;
            }
            return None;
        }
        value = value * 10 + digit;
        i = i + 1;
    }
    proof {
        assert(s@.subrange(start as int, n as int) =~= d);
    }
    Some(value)
}

/// A longer prefix of digits never reads as a smaller number.
proof fn digits_value_grows(d: Seq<u8>, k: int)
    requires
        0 <= k <= d.len(),
    ensures
        digits_value(d.take(k)) <= digits_value(d),
    decreases d.len() - k,
{
    if k < d.len() {
        digits_value_grows(d, k + 1);
        assert(d.take(k + 1).drop_last() =~= d.take(k));
    } else {
        assert(d.take(k) =~= d);
    }
}

/// The decimal digits of `n`, without leading zeros.
pub open spec fn decimal(n: nat) -> Seq<u8>
    decreases n,
{
    if n < 10 {
        seq![(0x30 + n) as u8]
    } else {
        decimal(n / 10).push((0x30 + n % 10) as u8)
    }
}

/// The pieces joined with `sep` between each two.
pub open spec fn join(pieces: Seq<Seq<u8>>, sep: Seq<u8>) -> Seq<u8>
    decreases pieces.len(),
{
    if pieces.len() == 0 {
        seq![]
    } else if pieces.len() == 1 {
        pieces[0]
    } else {
        pieces[0] + sep + join(pieces.skip(1), sep)
    }
}

/// The decimal digits of `n` read back as `n`.
pub proof fn decimal_reads_back(n: nat)
    ensures
        decimal(n).len() >= 1,
        all_digits(decimal(n)),
        digits_value(decimal(n)) == n,
    decreases n,
{
    let d = decimal(n);
    if n < 10 {
        assert(d.drop_last() =~= Seq::<u8>::empty());
        assert(digits_value(d) == digits_value(d.drop_last()) * 10 + (d.last() - 0x30u8) as nat);
    } else {
        decimal_reads_back(n / 10);
        assert(d.drop_last() =~= decimal(n / 10));
        assert(d.last() - 0x30u8 == n % 10);
        assert((n / 10) * 10 + n % 10 == n);
        assert forall|i: int| 0 <= i < d.len() implies is_digit(#[trigger] d[i]) by {
            if i < d.len() - 1 {
                assert(d[i] == decimal(n / 10)[i]);
            }
        }
    }
}

/// Without the byte `b` between `i` and `k`, and with `sep`, which starts
/// with `b`, at `k`, the first match from `i` is at `k`.
pub proof fn find_first_at(s: Seq<u8>, sep: Seq<u8>, i: int, k: int)
    requires
        sep.len() > 0,
        0 <= i <= k,
        matches_at(s, sep, k),
        forall|j: int| i <= j < k ==> s[j] != sep[0],
    ensures
        find_from(s, sep, i) == k,
    decreases k - i,
{
    if i < k {
        assert(s.subrange(i, i + sep.len())[0] == s[i]);
        find_first_at(s, sep, i + 1, k);
    }
}

/// Without the byte `b` from `i` on, there is no match of `sep`, which
/// starts with `b`.
pub proof fn find_none_after(s: Seq<u8>, sep: Seq<u8>, i: int)
    requires
        sep.len() > 0,
        0 <= i,
        forall|j: int| i <= j < s.len() ==> s[j] != sep[0],
    ensures
        find_from(s, sep, i) == -1,
    decreases s.len() + 1 - i,
{
    if i + sep.len() <= s.len() {
        assert(s.subrange(i, i + sep.len())[0] == s[i]);
        find_none_after(s, sep, i + 1);
    }
}

/// Splitting pieces joined with `sep` gives the pieces back, where no piece
/// holds the first byte of `sep`.
pub proof fn split_join(pieces: Seq<Seq<u8>>, sep: Seq<u8>)
    requires
        pieces.len() >= 1,
        sep.len() > 0,
        forall|i: int| 0 <= i < pieces.len() ==> !(#[trigger] pieces[i]).contains(sep[0]),
    ensures
        split(join(pieces, sep), sep) == pieces,
    decreases pieces.len(),
{
    let s = join(pieces, sep);
    let p = pieces[0];
    if pieces.len() == 1 {
        assert forall|j: int| 0 <= j < s.len() implies s[j] != sep[0] by {
            if s[j] == sep[0] {
                assert(p.contains(p[j]));
            }
        }
        find_none_after(s, sep, 0);
        assert(split(s, sep) =~= pieces);
    } else {
        let rest = pieces.skip(1);
        assert forall|i: int| 0 <= i < rest.len() implies !(#[trigger] rest[i]).contains(sep[0]) by {
            assert(rest[i] == pieces[i + 1]);
        }
        split_join(rest, sep);
        assert(s.subrange(p.len() as int, (p.len() + sep.len()) as int) =~= sep);
        assert forall|j: int| 0 <= j < p.len() implies s[j] != sep[0] by {
            if s[j] == sep[0] {
                assert(p.contains(p[j]));
            }
        }
        find_first_at(s, sep, 0, p.len() as int);
        assert(s.take(p.len() as int) =~= p);
        assert(s.skip((p.len() + sep.len()) as int) =~= join(rest, sep));
        assert(split(s, sep) =~= seq![p] + rest);
        assert(seq![p] + rest =~= pieces);
    }
}

/// A byte in no piece and not in `sep` is not in the joined text.
pub proof fn join_lacks(pieces: Seq<Seq<u8>>, sep: Seq<u8>, b: u8)
    requires
        !sep.contains(b),
        forall|i: int| 0 <= i < pieces.len() ==> !(#[trigger] pieces[i]).contains(b),
    ensures
        !join(pieces, sep).contains(b),
    decreases pieces.len(),
{
    if pieces.len() > 1 {
        let rest = pieces.skip(1);
        assert forall|i: int| 0 <= i < rest.len() implies !(#[trigger] rest[i]).contains(b) by {
            assert(rest[i] == pieces[i + 1]);
        }
        join_lacks(rest, sep, b);
        let p = pieces[0];
        let r = join(rest, sep);
        let s = join(pieces, sep);
        if s.contains(b) {
            let j = choose|j: int| 0 <= j < s.len() && s[j] == b;
            if j < p.len() {
                assert(p.contains(p[j]));
            } else if j < p.len() + sep.len() {
                assert(sep.contains(sep[j - p.len()]));
            } else {
                assert(r.contains(r[j - p.len() - sep.len()]));
            }
        }
    } else if pieces.len() == 1 {
        assert(!pieces[0].contains(b));
    }
}

/// The joined text starts as the first piece starts and ends as the last
/// piece ends.
pub proof fn join_ends(pieces: Seq<Seq<u8>>, sep: Seq<u8>)
    requires
        pieces.len() >= 1,
        pieces[0].len() >= 1,
        pieces.last().len() >= 1,
    ensures
        join(pieces, sep).len() >= 1,
        join(pieces, sep)[0] == pieces[0][0],
        join(pieces, sep).last() == pieces.last().last(),
{
    join_ends_last(pieces, sep);
}

/// The joined text ends as the last piece ends.
pub proof fn join_ends_last(pieces: Seq<Seq<u8>>, sep: Seq<u8>)
    requires
        pieces.len() >= 1,
        pieces.last().len() >= 1,
    ensures
        join(pieces, sep).len() >= 1,
        join(pieces, sep).last() == pieces.last().last(),
    decreases pieces.len(),
{
    if pieces.len() > 1 {
        let rest = pieces.skip(1);
        assert(rest.last() == pieces.last());
        join_ends_last(rest, sep);
    }
}

} // verus!
