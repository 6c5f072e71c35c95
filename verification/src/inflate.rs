//! Reading a compressed frame, bounded by a length that its content must not pass.

use crate::chunked::{fits_window, raw_frame, WINDOW_LOG_MAX};
use crate::outside::{
    joined_pieces, zstd_decoder, zstd_left, zstd_pieces, zstd_read, DECODE_BUFFER,
};
use vstd::prelude::*;

verus! {

/// What came of reading a frame.
pub enum Inflated {
    /// The frame cannot be decoded: what the decoder says of it.
    Failed(String),
    /// The content is over the limit: how many bytes had come when it passed it.
    Past(u64),
    /// The whole content.
    Whole(Vec<u8>),
}

/// What came of reading a frame, without the decoder's words.
pub enum InflatedView {
    Failed,
    Past(int),
    Whole(Seq<u8>),
}

impl View for Inflated {
    type V = InflatedView;

    open spec fn view(&self) -> InflatedView {
        match *self {
            Inflated::Failed(_) => InflatedView::Failed,
            Inflated::Past(reached) => InflatedView::Past(reached as int),
            Inflated::Whole(content) => InflatedView::Whole(content@),
        }
    }
}

/// What the pieces of a content come to behind those read already.
pub open spec fn gathered(got: Seq<u8>, pieces: Seq<Option<Seq<u8>>>, limit: int) -> InflatedView
    decreases pieces.len(),
{
    if pieces.len() == 0 {
        InflatedView::Whole(got)
    } else {
        match pieces[0] {
            None => InflatedView::Failed,
            Some(piece) => if got.len() + piece.len() > limit {
                InflatedView::Past((got.len() + piece.len()) as int)
            } else {
                gathered(got + piece, pieces.drop_first(), limit)
            },
        }
    }
}

/// What reading a frame comes to.
pub open spec fn inflated(frame: Seq<u8>, limit: int) -> InflatedView {
    match zstd_pieces(frame, WINDOW_LOG_MAX) {
        None => InflatedView::Failed,
        Some(pieces) => gathered(Seq::empty(), pieces, limit),
    }
}

/// Pieces that join to a content within the limit are gathered to it, however it is cut.
proof fn lemma_gathered(got: Seq<u8>, pieces: Seq<Option<Seq<u8>>>, limit: int)
    requires
        joined_pieces(pieces) is Some,
        got.len() + joined_pieces(pieces)->0.len() <= limit,
    ensures
        gathered(got, pieces, limit) == InflatedView::Whole(got + joined_pieces(pieces)->0),
    decreases pieces.len(),
{
    if pieces.len() == 0 {
        assert(got + Seq::<u8>::empty() =~= got);
    } else {
        let piece = pieces[0]->0;
        let rest = joined_pieces(pieces.drop_first())->0;
        assert(got + (piece + rest) =~= got + piece + rest);
        lemma_gathered(got + piece, pieces.drop_first(), limit);
    }
}

/// Whether a frame is a frame of raw blocks with a content that may be read under a limit.
pub open spec fn is_raw_within(frame: Seq<u8>, content: Seq<u8>, limit: int) -> bool {
    &&& frame == raw_frame(content)
    &&& content.len() <= limit
    &&& fits_window(content.len(), WINDOW_LOG_MAX)
}

/// Reads a frame under a fixed window. The content of a frame of raw blocks comes back whole.
pub fn inflate(frame: &[u8], limit: u32) -> (r: Inflated)
    ensures
        r@ == inflated(frame@, limit as int),
        forall|content: Seq<u8>|
            #[trigger] is_raw_within(frame@, content, limit as int) ==> r@ == InflatedView::Whole(
                content,
            ),
{
    let mut decoder = match zstd_decoder(frame, WINDOW_LOG_MAX) {
        Err(source) => return Inflated::Failed(source),
        Ok(decoder) => decoder,
    };
    let ghost pieces = zstd_left(decoder);
    proof {
        assert forall|content: Seq<u8>| #[trigger]
            is_raw_within(frame@, content, limit as int) implies inflated(frame@, limit as int)
            == InflatedView::Whole(content) by {
            assert(joined_pieces(pieces) == Some(content));
            assert(Seq::<u8>::empty() + content =~= content);
            lemma_gathered(Seq::empty(), pieces, limit as int);
        }
    }
    let mut out: Vec<u8> = Vec::new();
    loop
        invariant_except_break
            gathered(out@, zstd_left(decoder), limit as int) == inflated(frame@, limit as int),
        invariant
            out@.len() <= limit,
            forall|content: Seq<u8>| #[trigger]
                is_raw_within(frame@, content, limit as int) ==> inflated(frame@, limit as int)
                    == InflatedView::Whole(content),
        ensures
            inflated(frame@, limit as int) == InflatedView::Whole(out@),
        decreases zstd_left(decoder).len(),
    {
        let ghost left = zstd_left(decoder);
        let mut piece = match zstd_read(&mut decoder, DECODE_BUFFER) {
            Err(source) => return Inflated::Failed(source),
            Ok(piece) => piece,
        };
        if piece.len() == 0 {
            assert(piece@ =~= Seq::<u8>::empty());
            assert(left.len() == 0);
            break;
        }
        let reached = out.len() as u64 + piece.len() as u64;
        if reached > limit as u64 {
            return Inflated::Past(reached);
        }
        out.append(&mut piece);
    }
    Inflated::Whole(out)
}

/// What comes out of a frame is its pieces, one behind the other, if they are all there and keep to
/// the limit. The piece that goes past the limit tells how far, and a piece that fails ends it.
pub proof fn law_pieces_are_gathered_within_the_limit(
    got: Seq<u8>,
    piece: Seq<u8>,
    rest: Seq<Option<Seq<u8>>>,
    limit: int,
)
    ensures
        gathered(got, Seq::empty(), limit) == InflatedView::Whole(got),
        gathered(got, seq![None] + rest, limit) == InflatedView::Failed,
        got.len() + piece.len() <= limit ==> gathered(got, seq![Some(piece)] + rest, limit)
            == gathered(got + piece, rest, limit),
        got.len() + piece.len() > limit ==> gathered(got, seq![Some(piece)] + rest, limit)
            == InflatedView::Past(got.len() + piece.len() as int),
{
    assert((seq![None::<Seq<u8>>] + rest)[0] is None);
    assert((seq![Some(piece)] + rest)[0] == Some(piece));
    assert((seq![Some(piece)] + rest).drop_first() =~= rest);
}

/// What is gathered never goes past the limit.
pub proof fn law_what_is_gathered_keeps_to_the_limit(
    got: Seq<u8>,
    pieces: Seq<Option<Seq<u8>>>,
    limit: int,
)
    requires
        got.len() <= limit,
    ensures
        gathered(got, pieces, limit) matches InflatedView::Whole(content) ==> content.len() <= limit
            && got.is_prefix_of(content),
        gathered(got, pieces, limit) matches InflatedView::Past(n) ==> n > limit,
    decreases pieces.len(),
{
    assert(got.take(got.len() as int) =~= got);
    if pieces.len() > 0 && pieces[0] is Some {
        let more = got + pieces[0]->Some_0;
        if more.len() <= limit {
            law_what_is_gathered_keeps_to_the_limit(more, pieces.drop_first(), limit);
            let all = gathered(more, pieces.drop_first(), limit);
            if all is Whole {
                assert(got =~= more.take(got.len() as int));
                assert(got =~= all->Whole_0.take(got.len() as int));
            }
        }
    }
}

} // verus!
