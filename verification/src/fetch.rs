//! Asking the host application for chunks.

use vstd::prelude::*;
use crate::error::IsCancelled;
use crate::reconstruction;

verus! {

/// Whether a callback can be asked for any chunks.
pub open spec fn can_ask<H, T, E, D: Fn(&[H]) -> Result<T, E>>(get: &D) -> bool {
    forall|request: &[H]| call_requires(*get, (request,))
}

/// Whether a callback may answer a request with the given reply.
pub open spec fn answers<H, T, E, D: Fn(&[H]) -> Result<T, E>>(
    get: &D,
    request: Seq<H>,
    reply: T,
) -> bool {
    exists|r: &[H]| r@ == request && #[trigger] call_ensures(*get, (r,), Ok::<T, E>(reply))
}

/// Whether a callback may answer a request with the given error.
pub open spec fn refuses<H, T, E, D: Fn(&[H]) -> Result<T, E>>(
    get: &D,
    request: Seq<H>,
    e: E,
) -> bool {
    exists|r: &[H]| r@ == request && #[trigger] call_ensures(*get, (r,), Err::<T, E>(e))
}

/// Whether an error may stand for the user's wish to stop.
pub open spec fn stands_for_stop<E: IsCancelled>(e: E) -> bool {
    call_ensures(E::is_cancelled, (&e,), true)
}

/// Whether an error may stand for anything else, with the given text.
pub open spec fn stands_for_failure<E: IsCancelled + std::fmt::Display>(
    e: E,
    text: String,
) -> bool {
    call_ensures(E::is_cancelled, (&e,), false) && has_text(e, text)
}

/// Whether an error may be displayed as the given text.
pub open spec fn has_text<E: std::fmt::Display>(e: E, text: String) -> bool {
    vstd::string::to_string_from_display_ensures(&e, text)
}

/// Asks for the chunks with the hashes `from..to`.
pub(crate) fn ask<H, T, E, D: Fn(&[H]) -> Result<T, E>>(
    get: &D,
    hashes: &[H],
    from: usize,
    to: usize,
) -> (r: Result<T, E>)
    requires
        can_ask(get),
        from <= to <= hashes@.len(),
    ensures
        match r {
            Ok(reply) => answers(get, hashes@.subrange(from as int, to as int), reply),
            Err(e) => refuses(get, hashes@.subrange(from as int, to as int), e),
        },
{
    let request = &hashes[from..to];
    get(request)
}

/// The hashes of the `i`th request when at most `size` are asked for at a time.
pub open spec fn batch<H>(hashes: Seq<H>, size: int, i: int) -> Seq<H> {
    let end = if size * (i + 1) < hashes.len() {
        size * (i + 1)
    } else {
        hashes.len() as int
    };
    hashes.subrange(size * i, end)
}

/// Whether the replies answer the first requests, in order.
pub open spec fn answered<H, T, E, D: Fn(&[H]) -> Result<T, E>>(
    get: &D,
    hashes: Seq<H>,
    size: int,
    replies: Seq<T>,
) -> bool {
    forall|i: int|
        0 <= i < replies.len() ==> answers(get, batch(hashes, size, i), #[trigger] replies[i])
}

/// Whether the replies answer the first requests, in order, and the next one is
/// refused with the given error.
pub open spec fn refused_after<H, T, E, D: Fn(&[H]) -> Result<T, E>>(
    get: &D,
    hashes: Seq<H>,
    size: int,
    replies: Seq<T>,
    e: E,
) -> bool {
    &&& answered(get, hashes, size, replies)
    &&& size * replies.len() < hashes.len()
    &&& refuses(get, batch(hashes, size, replies.len() as int), e)
}

/// Whether the replies answer all requests, in order, and no request was made
/// in vain.
pub open spec fn all_answered<H, T, E, D: Fn(&[H]) -> Result<T, E>>(
    get: &D,
    hashes: Seq<H>,
    size: int,
    replies: Seq<T>,
) -> bool {
    &&& answered(get, hashes, size, replies)
    &&& size * replies.len() >= hashes.len()
    &&& replies.len() > 0 ==> size * (replies.len() - 1) < hashes.len()
}

/// The chunks of all replies, end to end.
pub open spec fn content(replies: Seq<Vec<Vec<u8>>>) -> Seq<u8>
    decreases replies.len(),
{
    if replies.len() == 0 {
        Seq::empty()
    } else {
        content(replies.drop_last()) + reconstruction::joined(replies.last()@)
    }
}

/// Requests ask for all hashes in order, each once: hash `j` stands in request
/// `j / size`, behind the hashes before it, and no request is longer than allowed.
pub proof fn law_requests_are_the_hashes<H>(hashes: Seq<H>, size: int, j: int)
    requires
        size > 0,
        0 <= j < hashes.len(),
    ensures
        0 <= size * (j / size) <= j,
        j - size * (j / size) < batch(hashes, size, j / size).len() <= size,
        batch(hashes, size, j / size)[j - size * (j / size)] == hashes[j],
        size * (j / size) + batch(hashes, size, j / size).len() == hashes.len() || batch(
            hashes,
            size,
            j / size,
        ).len() == size,
{
    let i = j / size;
    assert(size * i <= j < size * (i + 1) && 0 <= i && size * (i + 1) == size * i + size)
        by (nonlinear_arith)
        requires
            size > 0,
            0 <= j,
            i == j / size,
    ;
    assert(0 <= size * i) by (nonlinear_arith)
        requires
            size > 0,
            0 <= i,
    ;
}

/// What all replies hold is what each holds, one behind the other.
pub proof fn law_replies_are_joined_in_order(front: Seq<Vec<Vec<u8>>>, back: Seq<Vec<Vec<u8>>>)
    ensures
        content(front + back) == content(front) + content(back),
    decreases back.len(),
{
    if back.len() == 0 {
        assert(front + back =~= front);
        assert(content(front) + content(back) =~= content(front));
    } else {
        assert((front + back).drop_last() =~= front + back.drop_last());
        assert((front + back).last() == back.last());
        law_replies_are_joined_in_order(front, back.drop_last());
        assert(content(front + back) =~= content(front) + content(back));
    }
}

/// Only what stands for the user's wish to stop is taken for it: an error that never
/// does is a failure, and one that always does is none.
pub proof fn law_only_a_wish_to_stop_stops<E: IsCancelled + std::fmt::Display>(e: E, text: String)
    ensures
        (forall|b: bool| #[trigger] call_ensures(E::is_cancelled, (&e,), b) ==> !b)
            ==> !stands_for_stop(e),
        (forall|b: bool| #[trigger] call_ensures(E::is_cancelled, (&e,), b) ==> b)
            ==> !stands_for_failure(e, text),
{
}

} // verus!
