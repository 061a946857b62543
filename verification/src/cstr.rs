//! Byte-string and memory primitives over slices. A string is the run of
//! bytes before the first NUL of its buffer, or the whole buffer if it holds
//! no NUL.

use vstd::prelude::*;

verus! {

/// Index of the first NUL at or after `from`, or the length of the buffer
/// if there is none.
pub open spec fn nul_from(s: Seq<u8>, from: int) -> int
    decreases s.len() - from,
{
    if from < 0 || from >= s.len() {
        s.len() as int
    } else if s[from] == 0 {
        from
    } else {
        nul_from(s, from + 1)
    }
}

/// Length of the string in the buffer.
pub open spec fn length(s: Seq<u8>) -> int {
    nul_from(s, 0)
}

/// The string in the buffer.
pub open spec fn text(s: Seq<u8>) -> Seq<u8> {
    s.take(length(s))
}

/// The string ends at its first NUL: no byte before it is NUL.
pub proof fn lemma_nul_from(s: Seq<u8>, from: int)
    requires
        0 <= from <= s.len(),
    ensures
        from <= nul_from(s, from) <= s.len(),
        nul_from(s, from) < s.len() ==> s[nul_from(s, from)] == 0,
        forall|j: int| from <= j < nul_from(s, from) ==> #[trigger] s[j] != 0,
    decreases s.len() - from,
{
    if from < s.len() && s[from] != 0 {
        lemma_nul_from(s, from + 1);
    }
}

/// Bytes that are not NUL do not end the string.
proof fn lemma_nul_from_skips(s: Seq<u8>, from: int, to: int)
    requires
        0 <= from <= to <= s.len(),
        forall|j: int| from <= j < to ==> #[trigger] s[j] != 0,
    ensures
        nul_from(s, from) == nul_from(s, to),
    decreases to - from,
{
    if from < to {
        lemma_nul_from_skips(s, from + 1, to);
    }
}

/// Length of the string in `s`.
pub fn strlen(s: &[u8]) -> (n: usize)
    ensures
        n == length(s@),
{
    let mut k: usize = 0;
    while k < s.len() && s[k] != 0
        invariant
            k <= s.len(),
            forall|j: int| 0 <= j < k ==> #[trigger] s@[j] != 0,
        decreases s.len() - k,
    {
        k += 1;
    }
    proof {
        lemma_nul_from_skips(s@, 0, k as int);
    }
    k
}

/// Index of the first occurrence of `c` in the string in `s`, if there is
/// one. The terminating NUL is not part of the string, so it is never found.
pub fn strchr(s: &[u8], c: u8) -> (found: Option<usize>)
    ensures
        match found {
            Some(i) => i < length(s@) && s@[i as int] == c && forall|j: int|
                0 <= j < i ==> #[trigger] s@[j] != c,
            None => forall|j: int| 0 <= j < length(s@) ==> #[trigger] s@[j] != c,
        },
{
    let n = strlen(s);
    proof {
        lemma_nul_from(s@, 0);
    }
    let mut k: usize = 0;
    while k < n
        invariant
            k <= n <= s.len(),
            n == length(s@),
            forall|j: int| 0 <= j < k ==> #[trigger] s@[j] != c,
        decreases n - k,
    {
        if s[k] == c {
            return Some(k);
        }
        k += 1;
    }
    None
}

/// Byte `k` of a string, read as NUL from the string's end on.
pub open spec fn byte_or_nul(t: Seq<u8>, k: int) -> int {
    if 0 <= k < t.len() {
        t[k] as int
    } else {
        0
    }
}

/// Difference of the first pair of bytes, from index `from` on, in which two
/// strings differ, the shorter one continued with NULs; zero if there is no
/// such pair.
pub open spec fn difference(a: Seq<u8>, b: Seq<u8>, from: int) -> int
    decreases
        (if a.len() >= b.len() {
            a.len()
        } else {
            b.len()
        }) - from,
{
    if from < 0 || (from >= a.len() && from >= b.len()) {
        0
    } else if byte_or_nul(a, from) != byte_or_nul(b, from) {
        byte_or_nul(a, from) - byte_or_nul(b, from)
    } else {
        difference(a, b, from + 1)
    }
}

/// A byte as a signed number.
fn widen(b: u8) -> (w: i32)
    ensures
        w == b,
{
    b as i32
}

/// Compares the first `m` bytes of `p` with the first `n` bytes of `q` as
/// strings.
fn compare_text(p: &[u8], m: usize, q: &[u8], n: usize) -> (d: i32)
    requires
        m <= p.len(),
        n <= q.len(),
    ensures
        d == difference(p@.take(m as int), q@.take(n as int), 0),
{
    let ghost a = p@.take(m as int);
    let ghost b = q@.take(n as int);
    let len = if m >= n {
        m
    } else {
        n
    };
    let mut k: usize = 0;
    while k < len
        invariant
            k <= len,
            len == (if m >= n {
                m
            } else {
                n
            }),
            m <= p.len(),
            n <= q.len(),
            a == p@.take(m as int),
            b == q@.take(n as int),
            difference(a, b, 0) == difference(a, b, k as int),
        decreases len - k,
    {
        let x = if k < m {
            widen(p[k])
        } else {
            0
        };
        let y = if k < n {
            widen(q[k])
        } else {
            0
        };
        assert(x == byte_or_nul(a, k as int));
        assert(y == byte_or_nul(b, k as int));
        if x != y {
            return x - y;
        }
        k += 1;
    }
    0
}

/// Compares the strings in `p` and `q` byte by byte: zero if they are equal,
/// else the difference of the first bytes in which they differ, the end of
/// the shorter string counting as NUL.
pub fn strcmp(p: &[u8], q: &[u8]) -> (d: i32)
    ensures
        d == difference(text(p@), text(q@), 0),
{
    proof {
        lemma_nul_from(p@, 0);
        lemma_nul_from(q@, 0);
    }
    compare_text(p, strlen(p), q, strlen(q))
}

/// Whether the byte is a decimal digit.
pub open spec fn is_digit(b: u8) -> bool {
    48 <= b <= 57
}

/// Index of the first byte at or after `from` that is no digit, or the
/// length of the string if there is none.
pub open spec fn digits_end(t: Seq<u8>, from: int) -> int
    decreases t.len() - from,
{
    if from < 0 || from >= t.len() {
        t.len() as int
    } else if !is_digit(t[from]) {
        from
    } else {
        digits_end(t, from + 1)
    }
}

/// The number that a run of decimal digits denotes.
pub open spec fn decimal(d: Seq<u8>) -> int
    decreases d.len(),
{
    if d.len() == 0 {
        0
    } else {
        decimal(d.drop_last()) * 10 + (d.last() - 48)
    }
}

/// The number that the leading digits of the string in `s` denote: zero if
/// the string begins with no digit.
pub open spec fn number(s: Seq<u8>) -> int {
    decimal(text(s).take(digits_end(text(s), 0)))
}

/// The leading digits are digits.
proof fn lemma_digits_end(t: Seq<u8>, from: int)
    requires
        0 <= from <= t.len(),
    ensures
        from <= digits_end(t, from) <= t.len(),
        forall|j: int| from <= j < digits_end(t, from) ==> is_digit(#[trigger] t[j]),
    decreases t.len() - from,
{
    if from < t.len() && is_digit(t[from]) {
        lemma_digits_end(t, from + 1);
    }
}

/// Digits do not end the run of leading digits.
proof fn lemma_digits_end_skips(t: Seq<u8>, from: int, to: int)
    requires
        0 <= from <= to <= t.len(),
        forall|j: int| from <= j < to ==> is_digit(#[trigger] t[j]),
    ensures
        digits_end(t, from) == digits_end(t, to),
    decreases to - from,
{
    if from < to {
        lemma_digits_end_skips(t, from + 1, to);
    }
}

/// A run of digits denotes at least what its beginning denotes.
proof fn lemma_decimal_grows(d: Seq<u8>, k: int)
    requires
        0 <= k <= d.len(),
        forall|j: int| 0 <= j < d.len() ==> is_digit(#[trigger] d[j]),
    ensures
        0 <= decimal(d.take(k)) <= decimal(d),
    decreases d.len() - k,
{
    if k == d.len() {
        assert(d.take(k) =~= d);
        lemma_decimal_nonnegative(d);
    } else {
        lemma_decimal_grows(d, k + 1);
        let longer = d.take(k + 1);
        assert(longer.drop_last() =~= d.take(k));
        assert(longer.last() == d[k]);
        lemma_decimal_nonnegative(d.take(k));
    }
}

/// A run of digits denotes no negative number.
proof fn lemma_decimal_nonnegative(d: Seq<u8>)
    requires
        forall|j: int| 0 <= j < d.len() ==> is_digit(#[trigger] d[j]),
    ensures
        0 <= decimal(d),
    decreases d.len(),
{
    if d.len() > 0 {
        lemma_decimal_nonnegative(d.drop_last());
    }
}

/// Reads the leading decimal digits of the string in `s` as a number. No
/// sign and no leading blanks are understood. The number must fit the
/// result: `checked_atoi` tells whether it does.
pub fn atoi(s: &[u8]) -> (value: i32)
    requires
        number(s@) <= i32::MAX,
    ensures
        value == number(s@),
{
    match checked_atoi(s) {
        Some(value) => value,
        None => 0,
    }
}

/// Reads the leading decimal digits of the string in `s` as a number, or
/// tells that the number does not fit the result.
pub fn checked_atoi(s: &[u8]) -> (value: Option<i32>)
    ensures
        match value {
            Some(v) => v == number(s@),
            None => number(s@) > i32::MAX,
        },
{
    let n = strlen(s);
    let ghost t = text(s@);
    let ghost digits = t.take(digits_end(t, 0));
    proof {
        lemma_nul_from(s@, 0);
        lemma_digits_end(t, 0);
    }
    let mut sum: i32 = 0;
    let mut k: usize = 0;
    while k < n && 48 <= s[k] && s[k] <= 57
        invariant
            k <= n <= s.len(),
            n == length(s@),
            t == text(s@),
            digits == t.take(digits_end(t, 0)),
            forall|j: int| 0 <= j < digits.len() ==> is_digit(#[trigger] digits[j]),
            forall|j: int| 0 <= j < k ==> is_digit(#[trigger] t[j]),
            digits_end(t, 0) == digits_end(t, k as int),
            k <= digits.len(),
            sum == decimal(digits.take(k as int)),
        decreases n - k,
    {
        proof {
            assert(t[k as int] == s@[k as int]);
            assert(is_digit(t[k as int]));
            lemma_digits_end(t, k as int + 1);
            let longer = digits.take(k as int + 1);
            assert(longer.drop_last() =~= digits.take(k as int));
            assert(longer.last() == s@[k as int]);
            lemma_decimal_grows(digits, k as int + 1);
            lemma_decimal_grows(digits, k as int);
        }
        let digit = widen(s[k] - 48);
        if sum > (i32::MAX - digit) / 10 {
            return None;
        }
        sum = sum * 10 + digit;
        k += 1;
    }
    proof {
        if k < n {
            assert(t[k as int] == s@[k as int]);
        }
        assert(digits_end(t, k as int) == k);
        assert(digits.take(k as int) =~= digits);
    }
    Some(sum)
}

/// Copies the string in `src` into `dst`, cut short where `dst` is too
/// small, and ends it with a NUL. Returns the length of the string in
/// `src`: the copy is whole exactly if that is less than the size of `dst`.
pub fn strlcpy(dst: &mut [u8], src: &[u8]) -> (n: usize)
    requires
        old(dst)@.len() > 0,
    ensures
        n == length(src@),
        final(dst)@ == ({
            let k = if n < old(dst)@.len() {
                n as int
            } else {
                old(dst)@.len() - 1
            };
            src@.take(k).push(0u8) + old(dst)@.skip(k + 1)
        }),
{
    let n = strlen(src);
    proof {
        lemma_nul_from(src@, 0);
    }
    let k = if n < dst.len() {
        n
    } else {
        dst.len() - 1
    };
    memcpy(dst, src, k);
    dst[k] = 0;
    assert(dst@ =~= src@.take(k as int).push(0u8) + old(dst)@.skip(k + 1));
    n
}

/// Copies the first `len` bytes of `src` to the front of `dst`.
pub fn memcpy(dst: &mut [u8], src: &[u8], len: usize)
    requires
        len <= old(dst)@.len(),
        len <= src@.len(),
    ensures
        final(dst)@ == src@.take(len as int) + old(dst)@.skip(len as int),
{
    let mut k: usize = 0;
    while k < len
        invariant
            k <= len,
            len <= src@.len(),
            dst@.len() == old(dst)@.len(),
            len <= dst@.len(),
            dst@ =~= src@.take(k as int) + old(dst)@.skip(k as int),
        decreases len - k,
    {
        dst[k] = src[k];
        k += 1;
    }
}

/// Moves `len` bytes within `buf`, from offset `src` to offset `dst`. The two
/// regions may overlap in any way: the destination receives the bytes that
/// the source held before the call, and no byte outside the destination
/// changes.
pub fn memmove(buf: &mut [u8], dst: usize, src: usize, len: usize)
    requires
        dst + len <= old(buf)@.len(),
        src + len <= old(buf)@.len(),
    ensures
        final(buf)@ == old(buf)@.take(dst as int) + old(buf)@.subrange(src as int, src + len)
            + old(buf)@.skip(dst + len),
{
    let size = buf.len();
    if dst <= src {
        // The destination lies below the source: copying upwards, each byte
        // is read before the copy reaches it.
        let mut k: usize = 0;
        while k < len
            invariant
                k <= len,
                dst <= src,
                src + len <= size,
                buf@.len() == size,
                old(buf)@.len() == size,
                forall|x: int|
                    0 <= x < size && !(dst <= x < dst + k) ==> #[trigger] buf@[x] == old(buf)@[x],
                forall|x: int|
                    dst <= x < dst + k ==> #[trigger] buf@[x] == old(buf)@[x - dst + src],
            decreases len - k,
        {
            let b = buf[src + k];
            buf[dst + k] = b;
            k += 1;
        }
    } else {
        // The destination lies above the source: copying downwards, each
        // byte is read before the copy reaches it.
        let mut k: usize = len;
        while k > 0
            invariant
                k <= len,
                src < dst,
                dst + len <= size,
                buf@.len() == size,
                old(buf)@.len() == size,
                forall|x: int|
                    0 <= x < size && !(dst + k <= x < dst + len) ==> #[trigger] buf@[x] == old(
                        buf,
                    )@[x],
                forall|x: int|
                    dst + k <= x < dst + len ==> #[trigger] buf@[x] == old(buf)@[x - dst + src],
            decreases k,
        {
            k -= 1;
            let b = buf[src + k];
            buf[dst + k] = b;
        }
    }
    assert(buf@ =~= old(buf)@.take(dst as int) + old(buf)@.subrange(src as int, src + len) + old(
        buf,
    )@.skip(dst + len));
}

/// Order of the first pair of bytes, from index `from` up to `n`, in which
/// two buffers differ: -1 where the first buffer holds the smaller byte, 1
/// where it holds the larger; zero if there is no such pair.
pub open spec fn order(a: Seq<u8>, b: Seq<u8>, n: int, from: int) -> int
    decreases n - from,
{
    if from < 0 || from >= n {
        0
    } else if a[from] < b[from] {
        -1
    } else if a[from] > b[from] {
        1
    } else {
        order(a, b, n, from + 1)
    }
}

/// Order of the first `n` bytes of two buffers.
pub open spec fn order_of(a: Seq<u8>, b: Seq<u8>, n: usize) -> int {
    order(a, b, n as int, 0)
}

/// Compares the first `n` bytes of two buffers.
fn compare_bytes(a: &[u8], b: &[u8], n: usize) -> (d: i32)
    requires
        n <= a@.len(),
        n <= b@.len(),
    ensures
        d == order(a@, b@, n as int, 0),
{
    let mut k: usize = 0;
    while k < n
        invariant
            k <= n,
            n <= a@.len(),
            n <= b@.len(),
            order(a@, b@, n as int, 0) == order(a@, b@, n as int, k as int),
        decreases n - k,
    {
        if a[k] < b[k] {
            return -1;
        }
        if a[k] > b[k] {
            return 1;
        }
        k += 1;
    }
    0
}

/// Compares the first `n` bytes of `a` and `b`: zero if they are equal, else
/// -1 or 1 as the first byte in which they differ is smaller or larger in
/// `a`.
pub fn memcmp(a: &[u8], b: &[u8], n: usize) -> (d: i32)
    requires
        n <= a@.len(),
        n <= b@.len(),
    ensures
        d == order_of(a@, b@, n),
{
    compare_bytes(a, b, n)
}

/// Sets the first `n` bytes of `dst` to `c`.
pub fn memset(dst: &mut [u8], c: u8, n: usize)
    requires
        n <= old(dst)@.len(),
    ensures
        final(dst)@ == Seq::new(n as nat, |i: int| c) + old(dst)@.skip(n as int),
{
    let mut k: usize = 0;
    while k < n
        invariant
            k <= n,
            dst@.len() == old(dst)@.len(),
            n <= dst@.len(),
            dst@ =~= Seq::new(k as nat, |i: int| c) + old(dst)@.skip(k as int),
        decreases n - k,
    {
        dst[k] = c;
        k += 1;
    }
}

} // verus!
