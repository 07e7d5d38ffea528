//! Keeping a stream valid UTF-8.
use crate::procstream::ansi::pieces_view;
use vstd::prelude::*;
use vstd::utf8::{
    length_of_first_scalar, pop_first_scalar, valid_first_scalar, valid_utf8, valid_utf8_concat,
};

verus! {

/// What to do with bytes that are not valid UTF-8.
#[derive(Clone, Copy, PartialEq, Eq, Structural, Debug)]
pub enum Utf8 {
    /// Leave them.
    Preserve,
    /// Replace invalid sequences with `U+FFFD`. Buffer an incomplete sequence
    /// that straddles a read boundary.
    Lossy,
}

/// The number of bytes in front that are valid UTF-8, at most.
pub open spec fn longest_valid(bytes: Seq<u8>) -> nat
    decreases bytes.len(),
{
    if bytes.len() > 0 && valid_first_scalar(bytes) && pop_first_scalar(bytes).len() < bytes.len() {
        (length_of_first_scalar(bytes) + longest_valid(pop_first_scalar(bytes))) as nat
    } else {
        0
    }
}

/// The length of the invalid sequence that bytes begin with, as
/// `Utf8Error::error_len` gives it, or nothing where the bytes end within a
/// sequence that could still become valid.
pub uninterp spec fn sequence_error(bytes: Seq<u8>) -> Option<nat>;

/// What `std::str::from_utf8` objects to in bytes, if anything: the number of
/// valid bytes in front, and the length of the invalid sequence behind them,
/// or nothing where the bytes end within a sequence.
pub open spec fn utf8_fault(bytes: Seq<u8>) -> Option<(nat, Option<nat>)> {
    if valid_utf8(bytes) {
        None
    } else {
        let valid = longest_valid(bytes);
        Some((valid, sequence_error(bytes.skip(valid as int))))
    }
}

/// What `std::str::from_utf8` objects to, as plain numbers.
struct Fault {
    valid_up_to: usize,
    error_len: Option<usize>,
}

spec fn length_view(n: Option<usize>) -> Option<nat> {
    match n {
        None => None,
        Some(n) => Some(n as nat),
    }
}

/// Whether no more bytes in front than these are valid UTF-8.
pub open spec fn is_longest_valid(bytes: Seq<u8>, valid: int) -> bool {
    &&& 0 <= valid <= bytes.len()
    &&& valid_utf8(bytes.take(valid))
    &&& forall|k: int| valid < k <= bytes.len() ==> !valid_utf8(#[trigger] bytes.take(k))
}

/// `std::str::from_utf8` accepts exactly the bytes that are valid UTF-8. Of
/// others it says how many bytes in front are valid, at most; and either that
/// the bytes end unexpectedly, one to three bytes behind these, or how long
/// the invalid sequence is that starts there, whatever bytes follow: none can
/// make it valid.
#[verifier::external_body]
fn check_utf8(bytes: &[u8]) -> (r: Option<Fault>)
    ensures
        r is None <==> valid_utf8(bytes@),
        r matches Some(f) ==> is_longest_valid(bytes@, f.valid_up_to as int),
        r matches Some(f) ==> length_view(f.error_len) == sequence_error(
            bytes@.skip(f.valid_up_to as int),
        ),
        r matches Some(f) ==> (f.error_len is None ==> 1 <= bytes@.len() - f.valid_up_to <= 3),
        r matches Some(f) ==> (f.error_len matches Some(n) ==> 1 <= n <= bytes@.len()
            - f.valid_up_to),
        r matches Some(f) ==> (f.error_len is Some ==> forall|more: Seq<u8>|
            !#[trigger] valid_utf8(bytes@ + more)),
        r matches Some(f) ==> (f.error_len is Some ==> forall|more: Seq<u8>|
            #[trigger] sequence_error(bytes@.skip(f.valid_up_to as int) + more) == length_view(
                f.error_len,
            )),
{
    let e = std::str::from_utf8(bytes).err()?;
    Some(Fault { valid_up_to: e.valid_up_to(), error_len: e.error_len() })
}

/// The bytes of the replacement character, `U+FFFD`.
pub open spec fn replacement() -> Seq<u8> {
    seq![0xefu8, 0xbfu8, 0xbdu8]
}

/// The number of bytes that an invalid sequence takes up: at least one, and
/// at most those that there are.
pub open spec fn taken_up(n: nat, there: int) -> int {
    if n < 1 {
        1
    } else if n > there {
        there
    } else {
        n as int
    }
}

/// Bytes with each invalid sequence replaced, and the incomplete sequence at
/// their end, which is left over.
pub open spec fn sanitized(bytes: Seq<u8>) -> (Seq<u8>, Seq<u8>)
    decreases bytes.len(),
{
    match utf8_fault(bytes) {
        None => (bytes, Seq::empty()),
        Some((valid, None)) => (bytes.take(valid as int), bytes.skip(valid as int)),
        Some((valid, Some(n))) => {
            let next = valid + taken_up(n, bytes.len() - valid);
            if valid < next <= bytes.len() {
                let (rest, left) = sanitized(bytes.skip(next));
                (bytes.take(valid as int) + replacement() + rest, left)
            } else {
                (bytes, Seq::empty())
            }
        },
    }
}

/// Bytes with each invalid sequence replaced, an incomplete one at their end
/// included.
pub open spec fn lossy_bytes(bytes: Seq<u8>) -> Seq<u8>
    decreases bytes.len(),
{
    match utf8_fault(bytes) {
        None => bytes,
        Some((valid, None)) => bytes.take(valid as int) + replacement(),
        Some((valid, Some(n))) => {
            let next = valid + taken_up(n, bytes.len() - valid);
            if valid < next <= bytes.len() {
                bytes.take(valid as int) + replacement() + lossy_bytes(bytes.skip(next))
            } else {
                bytes
            }
        },
    }
}

/// A piece, unless it is empty.
pub open spec fn nonempty(bytes: Seq<u8>) -> Seq<Seq<u8>> {
    if bytes.len() == 0 {
        Seq::empty()
    } else {
        seq![bytes]
    }
}

proof fn lemma_replacement_valid()
    ensures
        valid_utf8(replacement()),
{
    let b = replacement();
    assert(vstd::utf8::is_leading_byte_width_3(0xefu8) && !vstd::utf8::is_leading_byte_width_1(
        0xefu8,
    ) && !vstd::utf8::is_leading_byte_width_2(0xefu8) && vstd::utf8::is_continuation_byte(0xbfu8)
        && vstd::utf8::is_continuation_byte(0xbdu8) && vstd::utf8::codepoint_width_3(
        0xefu8,
        0xbfu8,
        0xbdu8,
    ) == 0xfffd) by (bit_vector);
    assert(vstd::utf8::valid_first_scalar(b));
    assert(pop_first_scalar(b) =~= Seq::empty());
    assert(valid_utf8(pop_first_scalar(b)));
}

/// What follows a valid front of valid bytes is valid.
proof fn lemma_valid_rest(a: Seq<u8>, b: Seq<u8>)
    requires
        valid_utf8(a),
        valid_utf8(a + b),
    ensures
        valid_utf8(b),
    decreases a.len(),
{
    if a.len() == 0 {
        assert(a + b =~= b);
    } else {
        assert((a + b)[0] == a[0]);
        assert(pop_first_scalar(a + b) =~= pop_first_scalar(a) + b);
        lemma_valid_rest(pop_first_scalar(a), b);
    }
}

proof fn lemma_scalar_front(bytes: Seq<u8>, k: int)
    requires
        0 < k <= bytes.len(),
        valid_first_scalar(bytes.take(k)),
    ensures
        valid_first_scalar(bytes),
        length_of_first_scalar(bytes) == length_of_first_scalar(bytes.take(k)) <= k,
        pop_first_scalar(bytes.take(k)) == pop_first_scalar(bytes).take(
            k - length_of_first_scalar(bytes),
        ),
{
    let front = bytes.take(k);
    assert(front[0] == bytes[0]);
    if k > 1 {
        assert(front[1] == bytes[1]);
    }
    if k > 2 {
        assert(front[2] == bytes[2]);
    }
    if k > 3 {
        assert(front[3] == bytes[3]);
    }
    assert(pop_first_scalar(front) =~= pop_first_scalar(bytes).take(
        k - length_of_first_scalar(bytes),
    ));
}

/// The longest valid front is the longest.
proof fn lemma_longest_valid(bytes: Seq<u8>)
    ensures
        is_longest_valid(bytes, longest_valid(bytes) as int),
    decreases bytes.len(),
{
    let valid = longest_valid(bytes) as int;
    if bytes.len() > 0 && valid_first_scalar(bytes) && pop_first_scalar(bytes).len() < bytes.len() {
        let rest = pop_first_scalar(bytes);
        let len = length_of_first_scalar(bytes);
        lemma_longest_valid(rest);
        let front = bytes.take(valid);
        assert(front[0] == bytes[0]);
        assert(valid >= len);
        if len > 1 {
            assert(front[1] == bytes[1]);
        }
        if len > 2 {
            assert(front[2] == bytes[2]);
        }
        if len > 3 {
            assert(front[3] == bytes[3]);
        }
        assert(valid_first_scalar(front));
        assert(pop_first_scalar(front) =~= rest.take(valid - len));
        assert(valid_utf8(front));
        assert forall|k: int| valid < k <= bytes.len() implies !valid_utf8(
            #[trigger] bytes.take(k),
        ) by {
            if valid_utf8(bytes.take(k)) {
                lemma_scalar_front(bytes, k);
                assert(valid_utf8(rest.take(k - len)));
            }
        }
    } else {
        assert(valid_utf8(bytes.take(0)));
        assert forall|k: int| 0 < k <= bytes.len() implies !valid_utf8(
            #[trigger] bytes.take(k),
        ) by {
            if valid_utf8(bytes.take(k)) {
                lemma_scalar_front(bytes, k);
            }
        }
    }
}

proof fn lemma_longest_unique(bytes: Seq<u8>, valid: int)
    requires
        is_longest_valid(bytes, valid),
    ensures
        longest_valid(bytes) == valid,
{
    lemma_longest_valid(bytes);
    let other = longest_valid(bytes) as int;
    if other > valid {
        assert(!valid_utf8(bytes.take(other)));
    }
    if valid > other {
        assert(!valid_utf8(bytes.take(valid)));
    }
}

/// Behind a valid front, validity is counted on.
proof fn lemma_longest_behind(x: Seq<u8>, y: Seq<u8>)
    requires
        valid_utf8(x),
    ensures
        longest_valid(x + y) == x.len() + longest_valid(y),
        valid_utf8(x + y) <==> valid_utf8(y),
        longest_valid(y) <= y.len(),
{
    lemma_longest_valid(y);
    let v = longest_valid(y) as int;
    let all = x + y;
    assert(all.take(x.len() + v) =~= x + y.take(v));
    valid_utf8_concat(x, y.take(v));
    assert forall|k: int| x.len() + v < k <= all.len() implies !valid_utf8(
        #[trigger] all.take(k),
    ) by {
        if valid_utf8(all.take(k)) {
            assert(all.take(k) =~= x + y.take(k - x.len()));
            lemma_valid_rest(x, y.take(k - x.len()));
        }
    }
    lemma_longest_unique(all, x.len() + v);
    if valid_utf8(all) {
        lemma_valid_rest(x, y);
    }
    if valid_utf8(y) {
        valid_utf8_concat(x, y);
    }
}

/// A valid front stays as it is.
proof fn lemma_lossy_behind(x: Seq<u8>, y: Seq<u8>)
    requires
        valid_utf8(x),
    ensures
        lossy_bytes(x + y) == x + lossy_bytes(y),
{
    lemma_longest_behind(x, y);
    let all = x + y;
    if !valid_utf8(y) {
        let v = longest_valid(y) as int;
        lemma_longest_valid(y);
        if v == y.len() {
            assert(y.take(v) =~= y);
        }
        assert(all.skip(x.len() + v) =~= y.skip(v));
        assert(all.take(x.len() + v) =~= x + y.take(v));
        match sequence_error(y.skip(v)) {
            None => {
                assert(lossy_bytes(all) =~= x + lossy_bytes(y));
            },
            Some(n) => {
                let next = v + taken_up(n, y.len() - v);
                assert(all.skip(x.len() + next) =~= y.skip(next));
                assert(lossy_bytes(all) =~= x + lossy_bytes(y));
            },
        }
    }
}

/// An invalid sequence is replaced, whatever follows it.
proof fn lemma_lossy_invalid(x: Seq<u8>, valid: int, n: int, more: Seq<u8>)
    requires
        is_longest_valid(x, valid),
        1 <= n <= x.len() - valid,
        forall|m: Seq<u8>| !#[trigger] valid_utf8(x + m),
        forall|m: Seq<u8>| #[trigger] sequence_error(x.skip(valid) + m) == Some(n as nat),
    ensures
        lossy_bytes(x + more) == x.take(valid) + replacement() + lossy_bytes(
            x.skip(valid + n) + more,
        ),
{
    let all = x + more;
    assert(all.take(valid) =~= x.take(valid));
    assert forall|k: int| valid < k <= all.len() implies !valid_utf8(#[trigger] all.take(k)) by {
        if k <= x.len() {
            assert(all.take(k) =~= x.take(k));
        } else {
            assert(all.take(k) =~= x + more.take(k - x.len()));
        }
    }
    lemma_longest_unique(all, valid);
    assert(!valid_utf8(all));
    assert(all.skip(valid) =~= x.skip(valid) + more);
    assert(all.skip(valid + n) =~= x.skip(valid + n) + more);
}

/// An incomplete sequence by itself is replaced.
proof fn lemma_lossy_incomplete(x: Seq<u8>, valid: int)
    requires
        is_longest_valid(x, valid),
        !valid_utf8(x),
        sequence_error(x.skip(valid)) is None,
    ensures
        lossy_bytes(x.skip(valid)) == replacement(),
{
    let front = x.take(valid);
    let rest = x.skip(valid);
    assert(front + rest =~= x);
    lemma_longest_behind(front, rest);
    lemma_longest_unique(x, valid);
    assert(rest.skip(0) =~= rest);
    assert(lossy_bytes(rest) =~= replacement());
}

/// Whether what came out so far is the lossy form of what went in, up to the
/// bytes that are left, however the stream goes on.
#[verifier::opaque]
spec fn lossy_so_far(total: Seq<u8>, out: Seq<u8>, left: Seq<u8>) -> bool {
    forall|more: Seq<u8>| #[trigger] lossy_bytes(total + more) == out + lossy_bytes(left + more)
}

proof fn lemma_lossy_start(total: Seq<u8>)
    ensures
        lossy_so_far(total, Seq::empty(), total),
{
    reveal(lossy_so_far);
    assert forall|more: Seq<u8>| #[trigger]
        lossy_bytes(total + more) == Seq::<u8>::empty() + lossy_bytes(total + more) by {
        assert(Seq::<u8>::empty() + lossy_bytes(total + more) =~= lossy_bytes(total + more));
    }
}

proof fn lemma_lossy_valid_step(total: Seq<u8>, out: Seq<u8>, left: Seq<u8>, valid: int)
    requires
        lossy_so_far(total, out, left),
        0 <= valid <= left.len(),
        valid_utf8(left.take(valid)),
    ensures
        lossy_so_far(total, out + left.take(valid), left.skip(valid)),
{
    reveal(lossy_so_far);
    let front = left.take(valid);
    assert forall|more: Seq<u8>| #[trigger]
        lossy_bytes(total + more) == out + front + lossy_bytes(left.skip(valid) + more) by {
        let behind = left.skip(valid) + more;
        assert(left + more =~= front + behind);
        lemma_lossy_behind(front, behind);
        assert(out + (front + lossy_bytes(behind)) =~= out + front + lossy_bytes(behind));
    }
}

proof fn lemma_lossy_invalid_step(
    total: Seq<u8>,
    out: Seq<u8>,
    left: Seq<u8>,
    valid: int,
    n: int,
)
    requires
        lossy_so_far(total, out, left),
        invalid_behind(left, valid, n),
    ensures
        lossy_so_far(total, out + left.take(valid) + replacement(), left.skip(valid + n)),
{
    reveal(lossy_so_far);
    reveal(invalid_behind);
    let front = left.take(valid);
    assert forall|more: Seq<u8>| #[trigger]
        lossy_bytes(total + more) == out + front + replacement() + lossy_bytes(
            left.skip(valid + n) + more,
        ) by {
        lemma_lossy_invalid(left, valid, n, more);
        let tail = lossy_bytes(left.skip(valid + n) + more);
        assert(out + (front + replacement() + tail) =~= out + front + replacement() + tail);
    }
}

/// Whether nothing was changed so far, if the stream can still become valid.
#[verifier::opaque]
spec fn kept_so_far(total: Seq<u8>, out: Seq<u8>, left: Seq<u8>) -> bool {
    forall|more: Seq<u8>| #[trigger] valid_utf8(total + more) ==> out + left == total
}

/// Whether an invalid sequence stands behind so many valid bytes, whatever
/// follows it.
#[verifier::opaque]
spec fn invalid_behind(x: Seq<u8>, valid: int, n: int) -> bool {
    &&& is_longest_valid(x, valid)
    &&& 1 <= n <= x.len() - valid
    &&& forall|m: Seq<u8>| !#[trigger] valid_utf8(x + m)
    &&& forall|m: Seq<u8>| #[trigger] sequence_error(x.skip(valid) + m) == Some(n as nat)
}

proof fn lemma_kept_valid_step(total: Seq<u8>, out: Seq<u8>, left: Seq<u8>, valid: int)
    requires
        kept_so_far(total, out, left),
        0 <= valid <= left.len(),
    ensures
        kept_so_far(total, out + left.take(valid), left.skip(valid)),
{
    reveal(kept_so_far);
    assert(out + left.take(valid) + left.skip(valid) =~= out + left);
}

proof fn lemma_kept_invalid_step(
    total: Seq<u8>,
    out: Seq<u8>,
    left: Seq<u8>,
    valid: int,
    n: int,
)
    requires
        kept_so_far(total, out, left),
        valid_utf8(out),
        invalid_behind(left, valid, n),
    ensures
        kept_so_far(total, out + left.take(valid) + replacement(), left.skip(valid + n)),
{
    reveal(kept_so_far);
    reveal(invalid_behind);
    assert forall|more: Seq<u8>| #[trigger] valid_utf8(total + more) implies out + left.take(valid)
        + replacement() + left.skip(valid + n) == total by {
        assert(total + more =~= out + (left + more));
        lemma_valid_rest(out, left + more);
    }
}

/// What stands at the front of bytes.
enum Scan {
    /// Nothing but valid bytes.
    Valid,
    /// So many valid bytes, and an invalid sequence of some length.
    Invalid(usize, usize),
    /// So many valid bytes, and the start of a sequence.
    Incomplete(usize),
}

/// Finds what stands at the front of bytes.
fn scan(bytes: &[u8]) -> (r: Scan)
    ensures
        match r {
            Scan::Valid => valid_utf8(bytes@) && sanitized(bytes@) == (bytes@, Seq::<u8>::empty()),
            Scan::Invalid(valid, n) => {
                let (rest, left) = sanitized(bytes@.skip(valid + n));
                &&& 1 <= n
                &&& valid + n <= bytes@.len()
                &&& valid_utf8(bytes@.take(valid as int))
                &&& sanitized(bytes@) == (
                    bytes@.take(valid as int) + replacement() + rest,
                    left,
                )
                &&& invalid_behind(bytes@, valid as int, n as int)
            },
            Scan::Incomplete(valid) => {
                &&& valid < bytes@.len()
                &&& valid_utf8(bytes@.take(valid as int))
                &&& sanitized(bytes@) == (bytes@.take(valid as int), bytes@.skip(valid as int))
                &&& lossy_bytes(bytes@.skip(valid as int)) == replacement()
            },
        },
{
    match check_utf8(bytes) {
        None => Scan::Valid,
        Some(fault) => {
            let valid: usize = fault.valid_up_to;
            proof {
                lemma_longest_unique(bytes@, valid as int);
            }
            match fault.error_len {
                Some(n) => {
                    proof {
                        reveal(invalid_behind);
                        let none = Seq::<u8>::empty();
                        let rest = bytes@.skip(valid as int);
                        assert(rest + none =~= rest);
                        assert(length_view(Some(n)) == Some(n as nat));
                        assert(taken_up(n as nat, bytes@.len() - valid) == n);
                    }
                    Scan::Invalid(valid, n)
                },
                None => {
                    proof {
                        lemma_lossy_incomplete(bytes@, valid as int);
                    }
                    Scan::Incomplete(valid)
                },
            }
        },
    }
}

/// What filtering a piece of a stream means: what comes out is the lossy form
/// of what went in, however the stream goes on, up to the bytes that are held
/// back; and these are nothing or the start of a sequence.
pub open spec fn filters(held: Seq<u8>, bytes: Seq<u8>, out: Seq<u8>, left: Seq<u8>) -> bool {
    &&& forall|more: Seq<u8>| #[trigger]
        lossy_bytes(held + bytes + more) == out + lossy_bytes(left + more)
    &&& lossy_bytes(left) == flushed_bytes(left)
}

/// What the end of a stream makes of the bytes that are held back.
pub open spec fn flushed_bytes(left: Seq<u8>) -> Seq<u8> {
    if left.len() > 0 {
        replacement()
    } else {
        Seq::empty()
    }
}

/// Pieces put together.
pub open spec fn together(pieces: Seq<Seq<u8>>) -> Seq<u8>
    decreases pieces.len(),
{
    if pieces.len() == 0 {
        Seq::empty()
    } else {
        together(pieces.drop_last()) + pieces.last()
    }
}

/// All that comes out of a filter, put together, is the lossy form of all that
/// went in, however it was cut into pieces: `held[i]` is what the filter holds
/// back before the piece `pieces[i]`, and `outs[i]` what then comes out of it.
pub proof fn law_output_is_lossy_text(
    pieces: Seq<Seq<u8>>,
    outs: Seq<Seq<u8>>,
    held: Seq<Seq<u8>>,
)
    requires
        outs.len() == pieces.len(),
        held.len() == pieces.len() + 1,
        held[0].len() == 0,
        forall|i: int|
            0 <= i < pieces.len() ==> filters(
                #[trigger] held[i],
                pieces[i],
                outs[i],
                held[i + 1],
            ),
    ensures
        together(outs) + flushed_bytes(held.last()) == lossy_bytes(together(pieces)),
{
    let n = pieces.len() as int;
    lemma_filtered(pieces, outs, held, n);
    let all = together(pieces);
    assert(pieces.take(n) =~= pieces);
    assert(outs.take(n) =~= outs);
    let none = Seq::<u8>::empty();
    reveal(lossy_so_far);
    assert(all + none =~= all);
    assert(held[n] + none =~= held[n]);
    assert(lossy_bytes(all + none) == together(outs) + lossy_bytes(held[n] + none));
    if n > 0 {
        assert(filters(held[n - 1], pieces[n - 1], outs[n - 1], held[n]));
    } else {
        assert(valid_utf8(held[0]));
        assert(held[0] =~= none);
    }
}

proof fn lemma_filtered_step(
    total: Seq<u8>,
    written: Seq<u8>,
    held: Seq<u8>,
    piece: Seq<u8>,
    out: Seq<u8>,
    left: Seq<u8>,
)
    requires
        lossy_so_far(total, written, held),
        filters(held, piece, out, left),
    ensures
        lossy_so_far(total + piece, written + out, left),
{
    reveal(lossy_so_far);
    assert forall|more: Seq<u8>| #[trigger]
        lossy_bytes(total + piece + more) == written + out + lossy_bytes(left + more) by {
        let behind = piece + more;
        assert(total + piece + more =~= total + behind);
        assert(held + piece + more =~= held + behind);
        assert(lossy_bytes(total + behind) == written + lossy_bytes(held + behind));
        let rest = lossy_bytes(left + more);
        assert(written + (out + rest) =~= written + out + rest);
    }
}

proof fn lemma_filtered(
    pieces: Seq<Seq<u8>>,
    outs: Seq<Seq<u8>>,
    held: Seq<Seq<u8>>,
    k: int,
)
    requires
        outs.len() == pieces.len(),
        held.len() == pieces.len() + 1,
        held[0].len() == 0,
        0 <= k <= pieces.len(),
        forall|i: int|
            0 <= i < pieces.len() ==> filters(
                #[trigger] held[i],
                pieces[i],
                outs[i],
                held[i + 1],
            ),
    ensures
        lossy_so_far(together(pieces.take(k)), together(outs.take(k)), held[k]),
    decreases k,
{
    if k == 0 {
        lemma_lossy_start(Seq::empty());
        assert(held[0] =~= Seq::empty());
    } else {
        lemma_filtered(pieces, outs, held, k - 1);
        assert(pieces.take(k).drop_last() =~= pieces.take(k - 1));
        assert(outs.take(k).drop_last() =~= outs.take(k - 1));
        assert(filters(held[k - 1], pieces[k - 1], outs[k - 1], held[k - 1 + 1]));
        lemma_filtered_step(
            together(pieces.take(k - 1)),
            together(outs.take(k - 1)),
            held[k - 1],
            pieces[k - 1],
            outs[k - 1],
            held[k],
        );
    }
}

/// Replaces invalid UTF-8 with `U+FFFD`. Buffers a sequence split across reads.
pub struct Utf8Filter {
    pending: Vec<u8>,
}

impl Utf8Filter {
    /// The mathematical value of the filter: the bytes that it holds back.
    pub closed spec fn state(&self) -> Seq<u8> {
        self.pending@
    }

    /// Filters a piece of a stream. What comes out is valid UTF-8; and as long
    /// as the stream can still become valid UTF-8, nothing is changed: what
    /// came out and what is held back are what went in. Otherwise it is the
    /// lossy form of what went in.
    pub fn push(&mut self, bytes: &[u8]) -> (r: Vec<Vec<u8>>)
        ensures
            ({
                let (out, left) = sanitized(old(self).state() + bytes@);
                &&& pieces_view(r@) == nonempty(out)
                &&& final(self).state() == left
                &&& valid_utf8(out)
                &&& filters(old(self).state(), bytes@, out, left)
                &&& forall|more: Seq<u8>| #[trigger]
                    valid_utf8(old(self).state() + bytes@ + more) ==> out + left == old(
                        self,
                    ).state() + bytes@
            }),
    {
        let mut all: Vec<u8> = Vec::new();
        std::mem::swap(&mut all, &mut self.pending);
        all.extend_from_slice(bytes);
        let ghost total = all@;
        proof {
            assert(total =~= old(self).state() + bytes@);
            lemma_replacement_valid();
        }
        let mut out: Vec<u8> = Vec::new();
        let mut start: usize = 0;
        let n: usize = all.len();
        proof {
            assert(total.skip(0) =~= total);
            assert(out@ + sanitized(total).0 =~= sanitized(total).0);
            assert(valid_utf8(out@));
            assert(out@ =~= Seq::empty());
            lemma_lossy_start(total);
            assert(kept_so_far(total, out@, total)) by {
                reveal(kept_so_far);
                assert(out@ + total =~= total);
            }
        }
        loop
            invariant_except_break
                start <= n == all@.len(),
                all@ == total,
                valid_utf8(replacement()),
                valid_utf8(out@),
                sanitized(total).0 == out@ + sanitized(total.skip(start as int)).0,
                sanitized(total).1 == sanitized(total.skip(start as int)).1,
                kept_so_far(total, out@, total.skip(start as int)),
                lossy_so_far(total, out@, total.skip(start as int)),
            ensures
                start <= n == all@.len(),
                all@ == total,
                valid_utf8(out@),
                sanitized(total) == (out@, total.skip(start as int)),
                kept_so_far(total, out@, total.skip(start as int)),
                lossy_so_far(total, out@, total.skip(start as int)),
                lossy_bytes(total.skip(start as int)) == flushed_bytes(total.skip(start as int)),
            decreases n - start,
        {
            let rest = vstd::slice::slice_subrange(all.as_slice(), start, n);
            let ghost had = out@;
            let ghost left = total.skip(start as int);
            proof {
                assert(rest@ =~= left);
            }
            match scan(rest) {
                Scan::Valid => {
                    out.extend_from_slice(rest);
                    proof {
                        assert(out@ =~= had + left);
                        valid_utf8_concat(had, left);
                        assert(left.take(left.len() as int) =~= left);
                        assert(left.skip(left.len() as int) =~= total.skip(n as int));
                        assert(total.skip(n as int) =~= Seq::empty());
                        lemma_kept_valid_step(total, had, left, left.len() as int);
                        lemma_lossy_valid_step(total, had, left, left.len() as int);
                        assert(valid_utf8(Seq::<u8>::empty()));
                    }
                    start = n;
                    break ;
                },
                Scan::Invalid(valid, len) => {
                    let front = vstd::slice::slice_subrange(rest, 0, valid);
                    out.extend_from_slice(front);
                    out.push(0xef);
                    out.push(0xbf);
                    out.push(0xbd);
                    proof {
                        let kept = had + left.take(valid as int);
                        assert(front@ =~= left.take(valid as int));
                        assert(out@ =~= kept + replacement());
                        valid_utf8_concat(had, front@);
                        valid_utf8_concat(kept, replacement());
                        assert(left.skip(valid + len) =~= total.skip(start + valid + len));
                        let tail = sanitized(total.skip(start + valid + len)).0;
                        assert(had + (front@ + replacement() + tail) =~= out@ + tail);
                        lemma_kept_invalid_step(total, had, left, valid as int, len as int);
                        lemma_lossy_invalid_step(total, had, left, valid as int, len as int);
                    }
                    start = start + valid + len;
                },
                Scan::Incomplete(valid) => {
                    let front = vstd::slice::slice_subrange(rest, 0, valid);
                    out.extend_from_slice(front);
                    proof {
                        assert(front@ =~= left.take(valid as int));
                        assert(out@ =~= had + front@);
                        valid_utf8_concat(had, front@);
                        assert(left.skip(valid as int) =~= total.skip(start + valid));
                        lemma_kept_valid_step(total, had, left, valid as int);
                        lemma_lossy_valid_step(total, had, left, valid as int);
                    }
                    start = start + valid;
                    break ;
                },
            }
        }
        let left = vstd::slice::slice_subrange(all.as_slice(), start, n);
        let mut pending: Vec<u8> = Vec::new();
        pending.extend_from_slice(left);
        self.pending = pending;
        proof {
            assert(self.pending@ =~= total.skip(start as int));
            reveal(lossy_so_far);
            reveal(kept_so_far);
        }
        let ghost whole = out@;
        let mut pieces: Vec<Vec<u8>> = Vec::new();
        if out.len() > 0 {
            pieces.push(out);
        }
        proof {
            assert(pieces_view(pieces@) =~= nonempty(whole));
        }
        pieces
    }

    /// Ends a stream.
    pub fn flush(&mut self) -> (r: Vec<Vec<u8>>)
        ensures
            pieces_view(r@) == (if old(self).state().len() > 0 {
                seq![replacement()]
            } else {
                Seq::empty()
            }),
            pieces_view(r@) == nonempty(flushed_bytes(old(self).state())),
            final(self).state() == Seq::<u8>::empty(),
            valid_utf8(replacement()),
    {
        proof {
            lemma_replacement_valid();
        }
        let mut pieces: Vec<Vec<u8>> = Vec::new();
        if self.pending.len() > 0 {
            let mut out: Vec<u8> = Vec::new();
            out.push(0xef);
            out.push(0xbf);
            out.push(0xbd);
            proof {
                assert(out@ =~= replacement());
            }
            pieces.push(out);
            self.pending = Vec::new();
        }
        proof {
            assert(self.pending@ =~= Seq::<u8>::empty());
            assert(pieces_view(pieces@) =~= (if old(self).state().len() > 0 {
                seq![replacement()]
            } else {
                Seq::empty()
            }));
        }
        pieces
    }
}

impl Default for Utf8Filter {
    fn default() -> (r: Self)
        ensures
            r.state() == Seq::<u8>::empty(),
    {
        Utf8Filter { pending: Vec::new() }
    }
}

} // verus!
