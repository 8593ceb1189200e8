//! What holds of every torrent whose pieces are delivered.

use vstd::prelude::*;
#[allow(unused_imports)]
use crate::blocks::blocks_in;
#[allow(unused_imports)]
use crate::digest::sha1_of;
#[allow(unused_imports)]
use crate::download::{most_urgent, most_urgent_is_found, placed, WantedPiece};
#[allow(unused_imports)]
use crate::download_laws::{assembled, bytes_in, law_blocks_make_up_the_piece,
    law_byte_count_tells_the_end, law_stored_pieces_stay, names_blocks};
#[allow(unused_imports)]
use crate::torrent::law_pieces_tile_the_torrent;
#[allow(unused_imports)]
use crate::torrent_download::{is_among, PieceInWork, Plan, TorrentDownload};
#[allow(unused_imports)]
use crate::wire::zeros;

verus! {

/// A piece that is delivered is accepted: once every block of it has arrived, in any order,
/// as many bytes are there as the piece has, they are the piece, and it can be stored.
pub proof fn law_delivered_piece_is_accepted(
    work: PieceInWork,
    plan: Plan,
    content: Seq<u8>,
    whole: Seq<u8>,
    order: Seq<int>,
)
    requires
        0 < whole.len() == work.piece.length,
        work.assembly.size() == work.piece.length,
        plan.has_piece(work.piece),
        sha1_of(whole) == work.piece.hash@,
        plan.begin_of(work.piece.index as int) + whole.len() <= content.len(),
        order.no_duplicates(),
        names_blocks(order, whole.len() as int),
        forall|b: int| 0 <= b < blocks_in(whole.len() as int) ==> #[trigger] order.contains(b),
        work.assembly.blocks() == assembled(zeros(whole.len()), whole, order),
        work.assembly.received() == bytes_in(order, whole.len() as int),
    ensures
        work.assembly.received() == work.piece.length,
        work.assembly.blocks() == whole,
        sha1_of(work.assembly.blocks()) == work.piece.hash@,
        work.assembly.storable(work.piece.index as int, plan.plength, content),
{
    law_blocks_make_up_the_piece(zeros(whole.len()), whole, order);
    law_byte_count_tells_the_end(order, whole.len() as int);
}

/// Whether the torrent has as many pieces as its bytes need.
pub open spec fn pieces_fit(plan: Plan) -> bool {
    let npieces = plan.hashes.len();
    if npieces == 0 {
        plan.length == 0
    } else {
        0 < plan.plength && (npieces - 1) * plan.plength < plan.length <= npieces * plan.plength
    }
}

/// Where the first `n` pieces end.
pub open spec fn end_of_first(plan: Plan, n: int) -> int {
    if n < plan.hashes.len() {
        plan.begin_of(n)
    } else {
        plan.length
    }
}

/// Every piece has a place in the torrent: it begins where the pieces before it end, and
/// ends where the torrent still has bytes or just ends.
pub proof fn law_every_piece_has_room(plan: Plan, piece_i: int)
    requires
        pieces_fit(plan),
        0 <= piece_i < plan.hashes.len(),
    ensures
        0 <= plan.begin_of(piece_i),
        0 < plan.length_of(piece_i) <= plan.plength,
        plan.begin_of(piece_i) + plan.length_of(piece_i) == end_of_first(plan, piece_i + 1),
        plan.begin_of(piece_i) + plan.length_of(piece_i) <= plan.length,
{
    let npieces = plan.hashes.len() as int;
    assert(0 <= (npieces - 1) * plan.plength && 0 <= piece_i * plan.plength) by (nonlinear_arith)
        requires
            0 < npieces,
            0 <= piece_i,
            0 < plan.plength,
    ;
    assert((piece_i + 1) * plan.plength <= (npieces - 1) * plan.plength || piece_i + 1 == npieces)
        by (nonlinear_arith)
        requires
            piece_i < npieces,
            0 < plan.plength,
    ;
    law_pieces_tile_the_torrent(piece_i, npieces, plan.length, plan.plength);
}

/// The bytes of a torrent once the pieces of `need` have been taken up, one after another,
/// and each has been put where it belongs.
pub open spec fn content_after(
    plan: Plan,
    need: Seq<WantedPiece>,
    content: Seq<u8>,
    pieces: Seq<Seq<u8>>,
) -> Seq<u8>
    decreases need.len(),
{
    let m = most_urgent(need);
    if 0 <= m < need.len() {
        let index = need[m].index as int;
        content_after(
            plan,
            need.remove(m),
            placed(content, plan.begin_of(index), pieces[index]),
            pieces,
        )
    } else {
        content
    }
}

/// The first `n` of the pieces, one behind the other.
pub open spec fn joined(pieces: Seq<Seq<u8>>, n: int) -> Seq<u8>
    decreases n,
{
    if n <= 0 {
        seq![]
    } else {
        joined(pieces, n - 1) + pieces[n - 1]
    }
}

/// Whether piece `piece_i` stands in `content` where it belongs.
pub open spec fn stands(plan: Plan, content: Seq<u8>, pieces: Seq<Seq<u8>>, piece_i: int) -> bool {
    let begin = plan.begin_of(piece_i);
    content.subrange(begin, begin + plan.length_of(piece_i)) == pieces[piece_i]
}

/// Whether `pieces` are as many, and as long, as the torrent says.
pub open spec fn are_pieces_of(pieces: Seq<Seq<u8>>, plan: Plan) -> bool {
    &&& pieces.len() == plan.hashes.len()
    &&& forall|i: int|
        0 <= i < pieces.len() ==> (#[trigger] pieces[i]).len() == plan.length_of(i)
}

proof fn every_piece_stands(
    plan: Plan,
    need: Seq<WantedPiece>,
    content: Seq<u8>,
    pieces: Seq<Seq<u8>>,
)
    requires
        pieces_fit(plan),
        are_pieces_of(pieces, plan),
        content.len() == plan.length,
        forall|k: int| 0 <= k < need.len() ==> (#[trigger] need[k]).index < pieces.len(),
        forall|i: int|
            0 <= i < pieces.len() ==> is_among(need, i) || #[trigger] stands(
                plan,
                content,
                pieces,
                i,
            ),
    ensures
        content_after(plan, need, content, pieces).len() == plan.length,
        forall|i: int|
            0 <= i < pieces.len() ==> #[trigger] stands(
                plan,
                content_after(plan, need, content, pieces),
                pieces,
                i,
            ),
    decreases need.len(),
{
    if need.len() > 0 {
        most_urgent_is_found(need);
        let m = most_urgent(need);
        let rest = need.remove(m);
        let a = need[m].index as int;
        let next = placed(content, plan.begin_of(a), pieces[a]);
        law_every_piece_has_room(plan, a);
        assert(next.len() == content.len());
        assert forall|k: int| 0 <= k < rest.len() implies (#[trigger] rest[k]).index
            < pieces.len() by {
            assert(rest[k] == need[if k < m { k } else { k + 1 }]);
        }
        assert forall|i: int| 0 <= i < pieces.len() implies is_among(rest, i) || #[trigger] stands(
            plan,
            next,
            pieces,
            i,
        ) by {
            law_every_piece_has_room(plan, i);
            if i == a {
                assert(next.subrange(plan.begin_of(a), plan.begin_of(a) + plan.length_of(a))
                    =~= pieces[a]);
            } else if is_among(need, i) {
                let k = choose|k: int| 0 <= k < need.len() && (#[trigger] need[k]).index == i;
                assert(rest[if k < m { k } else { k - 1 }].index == i);
            } else {
                assert(stands(plan, content, pieces, i));
                assert(placed(content, plan.begin_of(i), pieces[i]) =~= content);
                law_stored_pieces_stay(content, plan.plength, i, pieces[i], a, pieces[a]);
            }
        }
        every_piece_stands(plan, rest, next, pieces);
    } else {
        assert(content_after(plan, need, content, pieces) == content);
        assert forall|i: int| 0 <= i < pieces.len() implies #[trigger] stands(
            plan,
            content,
            pieces,
            i,
        ) by {
            assert(!is_among(need, i));
        }
    }
}

proof fn standing_pieces_are_the_start(
    plan: Plan,
    content: Seq<u8>,
    pieces: Seq<Seq<u8>>,
    n: int,
)
    requires
        pieces_fit(plan),
        are_pieces_of(pieces, plan),
        content.len() == plan.length,
        0 <= n <= pieces.len(),
        forall|i: int| 0 <= i < pieces.len() ==> #[trigger] stands(plan, content, pieces, i),
    ensures
        joined(pieces, n) == content.take(end_of_first(plan, n)),
    decreases n,
{
    if n == 0 {
        assert(end_of_first(plan, 0) == 0);
        assert(content.take(0) =~= Seq::<u8>::empty());
    } else {
        standing_pieces_are_the_start(plan, content, pieces, n - 1);
        law_every_piece_has_room(plan, n - 1);
        assert(stands(plan, content, pieces, n - 1));
        let begin = plan.begin_of(n - 1);
        let end = end_of_first(plan, n);
        assert(content.take(end) =~= content.take(begin) + content.subrange(begin, end));
    }
}

/// A torrent that is delivered is its pieces, in the order of their indexes: whatever the
/// order in which the pieces are taken up, and whatever stood in the bytes before.
pub proof fn law_delivered_torrent_is_its_pieces(
    plan: Plan,
    need: Seq<WantedPiece>,
    content: Seq<u8>,
    pieces: Seq<Seq<u8>>,
)
    requires
        pieces_fit(plan),
        are_pieces_of(pieces, plan),
        content.len() == plan.length,
        forall|k: int| 0 <= k < need.len() ==> (#[trigger] need[k]).index < pieces.len(),
        forall|i: int| 0 <= i < pieces.len() ==> #[trigger] is_among(need, i),
    ensures
        content_after(plan, need, content, pieces) == joined(pieces, pieces.len() as int),
{
    let done = content_after(plan, need, content, pieces);
    assert forall|i: int| 0 <= i < pieces.len() implies is_among(need, i) || #[trigger] stands(
        plan,
        content,
        pieces,
        i,
    ) by {
        assert(is_among(need, i));
    }
    every_piece_stands(plan, need, content, pieces);
    standing_pieces_are_the_start(plan, done, pieces, pieces.len() as int);
    assert(done.take(plan.length) =~= done);
}

/// Whether a download gets from `before` to `after` by taking up the piece that comes next
/// and storing it as it is in `pieces`.
pub open spec fn stores_next(
    before: TorrentDownload,
    after: TorrentDownload,
    pieces: Seq<Seq<u8>>,
) -> bool {
    let m = most_urgent(before.need());
    let index = before.need()[m].index as int;
    &&& before.need().len() > 0
    &&& after.plan() == before.plan()
    &&& after.need() == before.need().remove(m)
    &&& after.content() == placed(before.content(), before.plan().begin_of(index), pieces[index])
}

proof fn run_gets_there(states: Seq<TorrentDownload>, pieces: Seq<Seq<u8>>, k: int)
    requires
        0 <= k < states.len(),
        forall|j: int|
            #![trigger states[j]]
            0 <= j < states.len() - 1 ==> stores_next(states[j], states[j + 1], pieces),
    ensures
        states[k].plan() == states[0].plan(),
        content_after(states[0].plan(), states[0].need(), states[0].content(), pieces)
            == content_after(states[0].plan(), states[k].need(), states[k].content(), pieces),
    decreases k,
{
    if k > 0 {
        run_gets_there(states, pieces, k - 1);
        assert(stores_next(states[k - 1], states[k - 1 + 1], pieces));
        most_urgent_is_found(states[k - 1].need());
    }
}

/// A download in which every piece is delivered ends with the pieces, in the order of their
/// indexes, as the bytes of the torrent.
pub proof fn law_delivered_download_ends_with_the_pieces(
    states: Seq<TorrentDownload>,
    pieces: Seq<Seq<u8>>,
)
    requires
        states.len() > 0,
        states[0].well_formed(),
        states[0].in_work() is None,
        pieces_fit(states[0].plan()),
        are_pieces_of(pieces, states[0].plan()),
        forall|i: int| 0 <= i < pieces.len() ==> #[trigger] states[0].awaits(i),
        forall|j: int|
            #![trigger states[j]]
            0 <= j < states.len() - 1 ==> stores_next(states[j], states[j + 1], pieces),
        states.last().need().len() == 0,
    ensures
        states.last().content() == joined(pieces, pieces.len() as int),
{
    let first = states[0];
    assert forall|k: int| 0 <= k < first.need().len() implies (#[trigger] first.need()[k]).index
        < pieces.len() by {
        assert(first.plan().has_piece(first.need()[k]));
    }
    assert forall|i: int| 0 <= i < pieces.len() implies #[trigger] is_among(first.need(), i) by {
        assert(first.awaits(i));
    }
    law_delivered_torrent_is_its_pieces(first.plan(), first.need(), first.content(), pieces);
    run_gets_there(states, pieces, states.len() - 1);
}

/// A piece that stands where it belongs has its hash: the bytes from as many piece lengths on
/// as there are pieces before it.
pub proof fn law_held_piece_has_its_hash(plan: Plan, content: Seq<u8>, piece_i: int)
    requires
        0 < plan.plength,
        0 <= piece_i < plan.hashes.len(),
    ensures
        ({
            let begin = piece_i * plan.plength;
            let last = piece_i == plan.hashes.len() - 1 && plan.length % plan.plength != 0;
            let end = begin + if last {
                plan.length % plan.plength
            } else {
                plan.plength
            };
            plan.holds(content, piece_i) <==> end <= content.len() && sha1_of(
                content.subrange(begin, end),
            ) == plan.hashes[piece_i]@
        }),
{
}

/// Any torrent can be downloaded whose pieces have bytes and whose piece length leaves room
/// for counting blocks, and so can one without pieces.
pub proof fn law_usual_torrents_can_be_cut(plan: Plan)
    requires
        plan.hashes.len() > 0 ==> 0 < plan.plength <= usize::MAX - 16383,
    ensures
        plan.can_be_cut(),
{
    assert forall|i: int| 0 <= i < plan.hashes.len() implies #[trigger] plan.length_of(i) + 16383
        <= usize::MAX by {
        vstd::arithmetic::div_mod::lemma_mod_bound(plan.length, plan.plength);
    }
}

/// A piece is still to come exactly where it is among those that are needed, or is the one
/// in work.
pub proof fn law_what_is_still_to_come(download: TorrentDownload, piece_i: int)
    ensures
        download.awaits(piece_i) <==> (exists|k: int|
            0 <= k < download.need().len() && (#[trigger] download.need()[k]).index == piece_i) || (
        download.in_work() is Some && download.in_work()->0.piece.index == piece_i),
{
}

} // verus!
