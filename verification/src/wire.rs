use crate::error::Error;
use vstd::bytes::{spec_u64_from_le_bytes, spec_u64_to_le_bytes, u64_from_le_bytes, u64_to_le_bytes};
use vstd::prelude::*;
use vstd::slice::slice_subrange;

verus! {

/// The longest run of bytes that a length or a count may take.
pub const MAX_VARINT_LEN: usize = 10;

/// The bytes `b` stand in `s` from `pos` on and end at or before `end`.
pub open spec fn has_at(s: Seq<u8>, pos: int, end: int, b: Seq<u8>) -> bool {
    &&& 0 <= pos
    &&& pos + b.len() <= end
    &&& end <= s.len()
    &&& s.subrange(pos, pos + b.len()) == b
}

/// Where a run starts, each of its two halves starts too.
pub proof fn lemma_has_at_split(s: Seq<u8>, pos: int, end: int, a: Seq<u8>, b: Seq<u8>)
    requires
        has_at(s, pos, end, a + b),
    ensures
        has_at(s, pos, end, a),
        has_at(s, pos + a.len(), end, b),
{
    let whole = s.subrange(pos, pos + (a + b).len());
    assert(s.subrange(pos, pos + a.len()) =~= a) by {
        assert forall|i: int| 0 <= i < a.len() implies s.subrange(pos, pos + a.len())[i] == a[i] by {
            assert(whole[i] == (a + b)[i]);
        }
    }
    assert(s.subrange(pos + a.len(), pos + a.len() + b.len()) =~= b) by {
        assert forall|i: int| 0 <= i < b.len() implies s.subrange(
            pos + a.len(),
            pos + a.len() + b.len(),
        )[i] == b[i] by {
            assert(whole[a.len() + i] == (a + b)[a.len() + i]);
        }
    }
}

/// A suffix of a buffer stands where the prefix ends.
pub proof fn lemma_has_at_append(pre: Seq<u8>, b: Seq<u8>)
    ensures
        has_at(pre + b, pre.len() as int, (pre + b).len() as int, b),
{
    assert((pre + b).subrange(pre.len() as int, (pre.len() + b.len()) as int) =~= b);
}

// ---------------------------------------------------------------------------
// One byte
// ---------------------------------------------------------------------------

/// The byte at `pos`, and the position after it.
pub open spec fn parse_byte(s: Seq<u8>, pos: int, end: int) -> Result<(u8, int), Error> {
    if 0 <= pos < end {
        Ok((s[pos], pos + 1))
    } else {
        Err(Error::TruncatedStream)
    }
}

/// Reads the byte at `pos`.
pub fn get_byte(buf: &[u8], pos: usize, end: usize) -> (r: Result<(u8, usize), Error>)
    requires
        end <= buf@.len(),
    ensures
        match r {
            Ok((b, next)) => parse_byte(buf@, pos as int, end as int) == Ok::<(u8, int), Error>(
                (b, next as int),
            ) && next == pos + 1 && next <= end,
            Err(e) => parse_byte(buf@, pos as int, end as int) == Err::<(u8, int), Error>(e),
        },
{
    if pos < end {
        Ok((buf[pos], pos + 1))
    } else {
        Err(Error::TruncatedStream)
    }
}

/// A byte is read back as written.
pub proof fn lemma_byte_round_trip(s: Seq<u8>, pos: int, end: int, b: u8)
    requires
        has_at(s, pos, end, seq![b]),
    ensures
        parse_byte(s, pos, end) == Ok::<(u8, int), Error>((b, pos + 1)),
{
    assert(s.subrange(pos, pos + 1)[0] == seq![b][0]);
}

// ---------------------------------------------------------------------------
// Variable-length unsigned integers: seven bits a byte, low group first,
// the high bit set on every byte but the last.
// ---------------------------------------------------------------------------

/// The bytes of `v`.
pub open spec fn varint_bytes(v: nat) -> Seq<u8>
    decreases v,
{
    if v < 128 {
        seq![v as u8]
    } else {
        seq![(128 + v % 128) as u8] + varint_bytes(v / 128)
    }
}

/// How many bytes `v` takes.
pub open spec fn varint_len(v: nat) -> nat
    decreases v,
{
    if v < 128 {
        1
    } else {
        1 + varint_len(v / 128)
    }
}

/// The value that starts at `pos` and takes at most `budget` bytes.
pub open spec fn parse_varint_within(s: Seq<u8>, pos: int, end: int, budget: nat) -> Result<
    (nat, int),
    Error,
>
    decreases budget,
{
    if budget == 0 {
        Err(Error::FormatError)
    } else if !(0 <= pos < end) {
        Err(Error::TruncatedStream)
    } else if s[pos] < 128 {
        Ok((s[pos] as nat, pos + 1))
    } else {
        match parse_varint_within(s, pos + 1, end, (budget - 1) as nat) {
            Ok((high, next)) => Ok((((s[pos] - 128) + 128 * high) as nat, next)),
            Err(e) => Err(e),
        }
    }
}

/// The 64-bit value that starts at `pos`: `TruncatedStream` where the bytes
/// end before the value does, `FormatError` where it runs over ten bytes or
/// does not fit in 64 bits.
pub open spec fn parse_varint(s: Seq<u8>, pos: int, end: int) -> Result<(u64, int), Error> {
    match parse_varint_within(s, pos, end, MAX_VARINT_LEN as nat) {
        Ok((v, next)) => if v <= u64::MAX {
            Ok((v as u64, next))
        } else {
            Err(Error::FormatError)
        },
        Err(e) => Err(e),
    }
}

/// The least number that takes more than `budget` bytes.
pub open spec fn varint_cap(budget: nat) -> nat
    decreases budget,
{
    if budget == 0 {
        1
    } else {
        128 * varint_cap((budget - 1) as nat)
    }
}

proof fn lemma_varint_cap_bound(budget: nat)
    requires
        budget <= 10,
    ensures
        1 <= varint_cap(budget) <= 0x40_0000_0000_0000_0000,
        budget >= 1 ==> 128 * varint_cap((budget - 1) as nat) == varint_cap(budget),
{
    reveal_with_fuel(varint_cap, 11);
}

fn get_varint_within(buf: &[u8], pos: usize, end: usize, budget: usize) -> (r: Result<
    (u128, usize),
    Error,
>)
    requires
        end <= buf@.len(),
        budget <= 10,
    ensures
        match r {
            Ok((v, next)) => parse_varint_within(buf@, pos as int, end as int, budget as nat)
                == Ok::<(nat, int), Error>((v as nat, next as int)) && v < varint_cap(
                budget as nat,
            ) && pos < next <= end,
            Err(e) => parse_varint_within(buf@, pos as int, end as int, budget as nat) == Err::<
                (nat, int),
                Error,
            >(e),
        },
    decreases budget,
{
    proof {
        lemma_varint_cap_bound(budget as nat);
    }
    if budget == 0 {
        return Err(Error::FormatError);
    }
    proof {
        lemma_varint_cap_bound((budget - 1) as nat);
    }
    if pos >= end {
        return Err(Error::TruncatedStream);
    }
    let b: u8 = buf[pos];
    if b < 128 {
        return Ok((b as u128, pos + 1));
    }
    match get_varint_within(buf, pos + 1, end, budget - 1) {
        Ok((high, next)) => {
            proof {
                lemma_varint_cap_bound((budget - 1) as nat);
            }
            let v: u128 = (b - 128) as u128 + 128 * high;
            Ok((v, next))
        },
        Err(e) => Err(e),
    }
}

/// Reads a length or a count at `pos`.
pub fn get_varint(buf: &[u8], pos: usize, end: usize) -> (r: Result<(u64, usize), Error>)
    requires
        end <= buf@.len(),
    ensures
        match r {
            Ok((v, next)) => parse_varint(buf@, pos as int, end as int) == Ok::<(u64, int), Error>(
                (v, next as int),
            ) && pos < next <= end,
            Err(e) => parse_varint(buf@, pos as int, end as int) == Err::<(u64, int), Error>(e),
        },
{
    match get_varint_within(buf, pos, end, MAX_VARINT_LEN) {
        Ok((v, next)) => {
            if v <= u64::MAX as u128 {
                Ok((v as u64, next))
            } else {
                Err(Error::FormatError)
            }
        },
        Err(e) => Err(e),
    }
}

/// Appends the bytes of `v`.
pub fn put_varint(out: &mut Vec<u8>, v: u64)
    ensures
        final(out)@ == old(out)@ + varint_bytes(v as nat),
{
    let ghost before = out@;
    let mut rest: u64 = v;
    while rest >= 128
        invariant
            out@ + varint_bytes(rest as nat) == before + varint_bytes(v as nat),
        decreases rest,
    {
        let ghost prev = out@;
        let b: u8 = (128 + rest % 128) as u8;
        out.push(b);
        proof {
            assert(varint_bytes(rest as nat) == seq![b] + varint_bytes((rest / 128) as nat));
            assert(out@ + varint_bytes((rest / 128) as nat) =~= prev + varint_bytes(rest as nat));
        }
        rest = rest / 128;
    }
    let ghost prev = out@;
    out.push(rest as u8);
    proof {
        assert(out@ =~= prev + varint_bytes(rest as nat));
    }
}

/// A number takes as many bytes as `varint_len` says, ten at most where it
/// fits in 64 bits.
pub proof fn lemma_varint_len(v: nat)
    ensures
        varint_bytes(v).len() == varint_len(v),
        1 <= varint_len(v),
        v <= u64::MAX ==> varint_len(v) <= 10,
    decreases v,
{
    if v >= 128 {
        lemma_varint_len(v / 128);
    }
    if v <= u64::MAX {
        reveal_with_fuel(varint_len, 11);
    }
}

proof fn lemma_varint_within_round_trip(s: Seq<u8>, pos: int, end: int, v: nat, budget: nat)
    requires
        has_at(s, pos, end, varint_bytes(v)),
        varint_len(v) <= budget,
    ensures
        parse_varint_within(s, pos, end, budget) == Ok::<(nat, int), Error>(
            (v, pos + varint_len(v)),
        ),
    decreases v,
{
    lemma_varint_len(v);
    if v < 128 {
        assert(s.subrange(pos, pos + 1)[0] == varint_bytes(v)[0]);
    } else {
        let head = seq![(128 + v % 128) as u8];
        lemma_has_at_split(s, pos, end, head, varint_bytes(v / 128));
        assert(s.subrange(pos, pos + 1)[0] == head[0]);
        lemma_varint_within_round_trip(s, pos + 1, end, v / 128, (budget - 1) as nat);
    }
}

/// What was written as a length or a count is read back, and the reading
/// stops where the writing did.
pub proof fn lemma_varint_round_trip(s: Seq<u8>, pos: int, end: int, v: u64)
    requires
        has_at(s, pos, end, varint_bytes(v as nat)),
    ensures
        parse_varint(s, pos, end) == Ok::<(u64, int), Error>(
            (v, pos + varint_bytes(v as nat).len()),
        ),
{
    lemma_varint_len(v as nat);
    lemma_varint_within_round_trip(s, pos, end, v as nat, 10);
}

// ---------------------------------------------------------------------------
// Fixed 64-bit words, low byte first
// ---------------------------------------------------------------------------

/// The eight bytes of `v`.
pub open spec fn word_bytes(v: u64) -> Seq<u8> {
    spec_u64_to_le_bytes(v)
}

/// The word at `pos`, and the position after it.
pub open spec fn parse_word(s: Seq<u8>, pos: int, end: int) -> Result<(u64, int), Error> {
    if 0 <= pos && pos + 8 <= end {
        Ok((spec_u64_from_le_bytes(s.subrange(pos, pos + 8)), pos + 8))
    } else {
        Err(Error::TruncatedStream)
    }
}

/// Reads the 64-bit word at `pos`.
pub fn get_word(buf: &[u8], pos: usize, end: usize) -> (r: Result<(u64, usize), Error>)
    requires
        end <= buf@.len(),
    ensures
        match r {
            Ok((v, next)) => parse_word(buf@, pos as int, end as int) == Ok::<(u64, int), Error>(
                (v, next as int),
            ) && next == pos + 8 && next <= end,
            Err(e) => parse_word(buf@, pos as int, end as int) == Err::<(u64, int), Error>(e),
        },
{
    if end < 8 || pos > end - 8 {
        return Err(Error::TruncatedStream);
    }
    let v: u64 = u64_from_le_bytes(slice_subrange(buf, pos, pos + 8));
    Ok((v, pos + 8))
}

/// Appends the eight bytes of `v`, low byte first.
pub fn put_word(out: &mut Vec<u8>, v: u64)
    ensures
        final(out)@ == old(out)@ + word_bytes(v),
{
    let mut b: Vec<u8> = u64_to_le_bytes(v);
    out.append(&mut b);
}

/// A word takes eight bytes.
pub proof fn lemma_word_len(v: u64)
    ensures
        word_bytes(v).len() == 8,
{
    vstd::bytes::lemma_auto_spec_u64_to_from_le_bytes();
}

/// A word is read back as written.
pub proof fn lemma_word_round_trip(s: Seq<u8>, pos: int, end: int, v: u64)
    requires
        has_at(s, pos, end, word_bytes(v)),
    ensures
        parse_word(s, pos, end) == Ok::<(u64, int), Error>((v, pos + 8)),
{
    vstd::bytes::lemma_auto_spec_u64_to_from_le_bytes();
}

// ---------------------------------------------------------------------------
// Byte strings with their length in front
// ---------------------------------------------------------------------------

/// The length of `b`, then `b`.
pub open spec fn blob_bytes(b: Seq<u8>) -> Seq<u8> {
    varint_bytes(b.len()) + b
}

/// The byte string at `pos`, and the position after it.
pub open spec fn parse_blob(s: Seq<u8>, pos: int, end: int) -> Result<(Seq<u8>, int), Error> {
    match parse_varint(s, pos, end) {
        Ok((len, start)) => if start + len <= end {
            Ok((s.subrange(start, start + len), start + len))
        } else {
            Err(Error::TruncatedStream)
        },
        Err(e) => Err(e),
    }
}

/// Reads a length at `pos` and that many bytes.
pub fn get_blob(buf: &[u8], pos: usize, end: usize) -> (r: Result<(Vec<u8>, usize), Error>)
    requires
        end <= buf@.len(),
    ensures
        match r {
            Ok((b, next)) => parse_blob(buf@, pos as int, end as int) == Ok::<(Seq<u8>, int), Error>(
                (b@, next as int),
            ) && pos < next <= end,
            Err(e) => parse_blob(buf@, pos as int, end as int) == Err::<(Seq<u8>, int), Error>(e),
        },
{
    let (len, start) = get_varint(buf, pos, end)?;
    if len > (end - start) as u64 {
        return Err(Error::TruncatedStream);
    }
    let n: usize = len as usize;
    let mut b: Vec<u8> = Vec::new();
    let mut i: usize = 0;
    while i < n
        invariant
            i <= n,
            start + n <= end,
            end <= buf@.len(),
            b@ == buf@.subrange(start as int, start + i),
        decreases n - i,
    {
        b.push(buf[start + i]);
        i = i + 1;
        proof {
            assert(b@ =~= buf@.subrange(start as int, start + i));
        }
    }
    Ok((b, start + n))
}

/// Appends the length of `b`, then `b`.
pub fn put_blob(out: &mut Vec<u8>, b: &Vec<u8>)
    ensures
        final(out)@ == old(out)@ + blob_bytes(b@),
{
    let ghost before = out@;
    put_varint(out, b.len() as u64);
    let ghost mid = out@;
    let mut i: usize = 0;
    while i < b.len()
        invariant
            i <= b.len(),
            out@ == mid + b@.subrange(0, i as int),
        decreases b.len() - i,
    {
        out.push(b[i]);
        i = i + 1;
        proof {
            assert(out@ =~= mid + b@.subrange(0, i as int));
        }
    }
    proof {
        assert(b@.subrange(0, b.len() as int) =~= b@);
        assert(out@ =~= before + blob_bytes(b@));
    }
}

/// A byte string is read back as written.
pub proof fn lemma_blob_round_trip(s: Seq<u8>, pos: int, end: int, b: Seq<u8>)
    requires
        has_at(s, pos, end, blob_bytes(b)),
        b.len() <= u64::MAX,
    ensures
        parse_blob(s, pos, end) == Ok::<(Seq<u8>, int), Error>((b, pos + blob_bytes(b).len())),
{
    lemma_has_at_split(s, pos, end, varint_bytes(b.len()), b);
    lemma_varint_round_trip(s, pos, end, b.len() as u64);
}

// ---------------------------------------------------------------------------
// Repetition: a count, then that many items one after another
// ---------------------------------------------------------------------------

/// The items of `xs` one after another, each written by `f`.
pub open spec fn items_bytes<T>(xs: Seq<T>, f: spec_fn(T) -> Seq<u8>) -> Seq<u8>
    decreases xs.len(),
{
    if xs.len() == 0 {
        Seq::<u8>::empty()
    } else {
        items_bytes(xs.drop_last(), f) + f(xs.last())
    }
}

/// The first `n` items from `pos` on, each read by `p`, and the position
/// after the last of them. The error of the first item that fails stands for
/// the whole.
pub open spec fn parse_items<T>(
    s: Seq<u8>,
    pos: int,
    end: int,
    n: nat,
    p: spec_fn(Seq<u8>, int, int) -> Result<(T, int), Error>,
) -> Result<(Seq<T>, int), Error>
    decreases n,
{
    if n == 0 {
        Ok((Seq::<T>::empty(), pos))
    } else {
        match parse_items(s, pos, end, (n - 1) as nat, p) {
            Ok((xs, mid)) => match p(s, mid, end) {
                Ok((x, next)) => Ok((xs.push(x), next)),
                Err(e) => Err(e),
            },
            Err(e) => Err(e),
        }
    }
}

/// The count of `xs`, then its items.
pub open spec fn list_bytes<T>(xs: Seq<T>, f: spec_fn(T) -> Seq<u8>) -> Seq<u8> {
    varint_bytes(xs.len()) + items_bytes(xs, f)
}

/// A count at `pos`, then that many items.
pub open spec fn parse_list<T>(
    s: Seq<u8>,
    pos: int,
    end: int,
    p: spec_fn(Seq<u8>, int, int) -> Result<(T, int), Error>,
) -> Result<(Seq<T>, int), Error> {
    match parse_varint(s, pos, end) {
        Ok((n, start)) => parse_items(s, start, end, n as nat, p),
        Err(e) => Err(e),
    }
}

/// One more item adds its bytes at the end.
pub proof fn lemma_items_push<T>(xs: Seq<T>, x: T, f: spec_fn(T) -> Seq<u8>)
    ensures
        items_bytes(xs.push(x), f) == items_bytes(xs, f) + f(x),
{
    assert(xs.push(x).drop_last() =~= xs);
}

/// Once an item has failed, reading more items fails in the same way.
pub proof fn lemma_parse_items_sticky<T>(
    s: Seq<u8>,
    pos: int,
    end: int,
    k: nat,
    n: nat,
    p: spec_fn(Seq<u8>, int, int) -> Result<(T, int), Error>,
)
    requires
        k <= n,
        parse_items(s, pos, end, k, p) is Err,
    ensures
        parse_items(s, pos, end, n, p) == parse_items(s, pos, end, k, p),
    decreases n,
{
    if k < n {
        lemma_parse_items_sticky(s, pos, end, k, (n - 1) as nat, p);
    }
}

/// Items that are each read back as written are read back as a list.
pub proof fn lemma_items_round_trip<T>(
    s: Seq<u8>,
    pos: int,
    end: int,
    xs: Seq<T>,
    f: spec_fn(T) -> Seq<u8>,
    p: spec_fn(Seq<u8>, int, int) -> Result<(T, int), Error>,
)
    requires
        has_at(s, pos, end, items_bytes(xs, f)),
        forall|i: int, q: int|
            0 <= i < xs.len() && #[trigger] has_at(s, q, end, f(xs[i])) ==> p(s, q, end) == Ok::<
                (T, int),
                Error,
            >((xs[i], q + f(xs[i]).len())),
    ensures
        parse_items(s, pos, end, xs.len(), p) == Ok::<(Seq<T>, int), Error>(
            (xs, pos + items_bytes(xs, f).len()),
        ),
    decreases xs.len(),
{
    if xs.len() > 0 {
        let front = xs.drop_last();
        let last = xs.last();
        lemma_has_at_split(s, pos, end, items_bytes(front, f), f(last));
        assert forall|i: int, q: int|
            0 <= i < front.len() && #[trigger] has_at(s, q, end, f(front[i])) implies p(s, q, end)
            == Ok::<(T, int), Error>((front[i], q + f(front[i]).len())) by {
            assert(front[i] == xs[i]);
        }
        lemma_items_round_trip(s, pos, end, front, f, p);
        let mid = pos + items_bytes(front, f).len();
        assert(has_at(s, mid, end, f(xs[xs.len() - 1])));
        assert(front.push(last) =~= xs);
    } else {
        assert(xs =~= Seq::<T>::empty());
    }
}

/// A list whose items are each read back as written is read back as written.
pub proof fn lemma_list_round_trip<T>(
    s: Seq<u8>,
    pos: int,
    end: int,
    xs: Seq<T>,
    f: spec_fn(T) -> Seq<u8>,
    p: spec_fn(Seq<u8>, int, int) -> Result<(T, int), Error>,
)
    requires
        has_at(s, pos, end, list_bytes(xs, f)),
        xs.len() <= u64::MAX,
        forall|i: int, q: int|
            0 <= i < xs.len() && #[trigger] has_at(s, q, end, f(xs[i])) ==> p(s, q, end) == Ok::<
                (T, int),
                Error,
            >((xs[i], q + f(xs[i]).len())),
    ensures
        parse_list(s, pos, end, p) == Ok::<(Seq<T>, int), Error>(
            (xs, pos + list_bytes(xs, f).len()),
        ),
{
    lemma_has_at_split(s, pos, end, varint_bytes(xs.len()), items_bytes(xs, f));
    lemma_varint_round_trip(s, pos, end, xs.len() as u64);
    lemma_items_round_trip(s, pos + varint_bytes(xs.len()).len(), end, xs, f, p);
}

// ---------------------------------------------------------------------------
// Truth values, one byte each
// ---------------------------------------------------------------------------

/// One for true, zero for false.
pub open spec fn flag_bytes(b: bool) -> Seq<u8> {
    seq![if b {
        1u8
    } else {
        0u8
    }]
}

/// The truth value at `pos`; a byte other than zero and one is `FormatError`.
pub open spec fn parse_flag(s: Seq<u8>, pos: int, end: int) -> Result<(bool, int), Error> {
    match parse_byte(s, pos, end) {
        Ok((b, next)) => if b == 0 {
            Ok((false, next))
        } else if b == 1 {
            Ok((true, next))
        } else {
            Err(Error::FormatError)
        },
        Err(e) => Err(e),
    }
}

/// Reads the truth value at `pos`.
pub fn get_flag(buf: &[u8], pos: usize, end: usize) -> (r: Result<(bool, usize), Error>)
    requires
        end <= buf@.len(),
    ensures
        match r {
            Ok((b, next)) => parse_flag(buf@, pos as int, end as int) == Ok::<(bool, int), Error>(
                (b, next as int),
            ) && next == pos + 1 && next <= end,
            Err(e) => parse_flag(buf@, pos as int, end as int) == Err::<(bool, int), Error>(e),
        },
{
    match get_byte(buf, pos, end) {
        Ok((b, next)) => {
            if b == 0 {
                Ok((false, next))
            } else if b == 1 {
                Ok((true, next))
            } else {
                Err(Error::FormatError)
            }
        },
        Err(e) => Err(e),
    }
}

/// Appends one for true, zero for false.
pub fn put_flag(out: &mut Vec<u8>, b: bool)
    ensures
        final(out)@ == old(out)@ + flag_bytes(b),
{
    let ghost before = out@;
    out.push(if b {
        1u8
    } else {
        0u8
    });
    proof {
        assert(out@ =~= before + flag_bytes(b));
    }
}

/// A truth value is read back as written.
pub proof fn lemma_flag_round_trip(s: Seq<u8>, pos: int, end: int, b: bool)
    requires
        has_at(s, pos, end, flag_bytes(b)),
    ensures
        parse_flag(s, pos, end) == Ok::<(bool, int), Error>((b, pos + 1)),
{
    lemma_byte_round_trip(s, pos, end, flag_bytes(b)[0]);
    assert(flag_bytes(b) =~= seq![flag_bytes(b)[0]]);
}

/// A value that was read lies within the bytes it was read from.
pub proof fn lemma_parse_varint_bounds(s: Seq<u8>, pos: int, end: int, budget: nat)
    requires
        parse_varint_within(s, pos, end, budget) is Ok,
    ensures
        pos < parse_varint_within(s, pos, end, budget).unwrap().1 <= end,
        0 <= pos,
    decreases budget,
{
    if budget > 0 && 0 <= pos < end && s[pos] >= 128 {
        lemma_parse_varint_bounds(s, pos + 1, end, (budget - 1) as nat);
    }
}

/// A byte string that was read is as long as its length field says.
pub proof fn lemma_parse_blob_bounds(s: Seq<u8>, pos: int, end: int)
    requires
        end <= s.len(),
        parse_blob(s, pos, end) is Ok,
    ensures
        parse_blob(s, pos, end).unwrap().0.len() <= u64::MAX,
        pos < parse_blob(s, pos, end).unwrap().1 <= end,
{
    lemma_parse_varint_bounds(s, pos, end, MAX_VARINT_LEN as nat);
}

} // verus!
